use highway_hierarchy::builder::{DefaultEdgeBuilder, DirectedNetworkBuilder, EdgeDirection};
use highway_hierarchy::dag::{
    insert_link, larger_reference, DijkstraNodeState, HighwayNodeQueue, HighwayQueueEntry,
    ParentEntry, ParentLink, VisitedState,
};
use highway_hierarchy::graph::{DirectedNetworkGraph, NetworkEdge, NetworkNode};
use highway_hierarchy::ids::{EdgeId, NodeId};
use highway_hierarchy::neighbourhood::{
    BackwardNeighbourhood, ComputedState, ForwardNeighbourhood,
};
use highway_hierarchy::phase_one::{
    border_distance, calculate_edges, collect_next_level_edges, create_directed_acyclic_graph,
    reference_distance, should_abort,
};
use std::collections::{HashMap, HashSet, VecDeque};

fn network_of(first: usize, last: usize, edges: &[(usize, usize, u64)]) -> DirectedNetworkGraph<()> {
    let mut builder = DirectedNetworkBuilder::<usize, DefaultEdgeBuilder>::new();
    for x in first..=last {
        builder.add_node(x);
    }
    for &(a, b, c) in edges {
        let source = builder.add_node(a);
        let target = builder.add_node(b);
        builder.add_edge(DefaultEdgeBuilder::forward(source, target, 0, c));
    }
    builder.build::<()>().unwrap()
}

// https://www.baeldung.com/wp-content/uploads/2017/01/initial-graph.png
pub fn create_ref_network_1() -> DirectedNetworkGraph<()> {
    let nodes = vec![
        NetworkNode::new(0, 2),
        NetworkNode::new(2, 5),
        NetworkNode::new(5, 7),
        NetworkNode::new(7, 10),
        NetworkNode::new(10, 13),
        NetworkNode::new(13, 16),
    ];
    let edges = vec![
        NetworkEdge::new(0, 1u32.into(), 10, EdgeDirection::Forward), // A -> B
        NetworkEdge::new(1, 2u32.into(), 15, EdgeDirection::Forward), // A -> C
        NetworkEdge::new(2, 3u32.into(), 12, EdgeDirection::Forward), // B -> D
        NetworkEdge::new(3, 5u32.into(), 15, EdgeDirection::Forward), // B -> F
        NetworkEdge::new(4, 0u32.into(), 10, EdgeDirection::Backward), // A <- B
        NetworkEdge::new(5, 4u32.into(), 10, EdgeDirection::Forward), // C -> E
        NetworkEdge::new(6, 0u32.into(), 15, EdgeDirection::Backward), // A <- C
        NetworkEdge::new(7, 4u32.into(), 2, EdgeDirection::Forward),  // D -> E
        NetworkEdge::new(8, 5u32.into(), 1, EdgeDirection::Forward),  // D -> F
        NetworkEdge::new(9, 1u32.into(), 12, EdgeDirection::Backward), // B <- D
        NetworkEdge::new(10, 2u32.into(), 10, EdgeDirection::Backward), // C <- E
        NetworkEdge::new(11, 3u32.into(), 2, EdgeDirection::Backward), // D <- E
        NetworkEdge::new(12, 5u32.into(), 5, EdgeDirection::Backward), // F <- E
        NetworkEdge::new(13, 4u32.into(), 5, EdgeDirection::Forward), // F -> E
        NetworkEdge::new(14, 1u32.into(), 15, EdgeDirection::Backward), // B <- F
        NetworkEdge::new(15, 3u32.into(), 1, EdgeDirection::Backward), // D <- F
    ];

    DirectedNetworkGraph::new(nodes, edges, ())
}

pub fn create_undirected_network() -> DirectedNetworkGraph<()> {
    network_of(
        0,
        16,
        &[
            (0, 1, 3),
            (1, 0, 3),
            (1, 2, 2),
            (2, 1, 2),
            (2, 3, 2),
            (3, 2, 2),
            (3, 0, 2),
            (0, 3, 2),
            (7, 6, 2),
            (6, 7, 2),
            (6, 5, 2),
            (5, 6, 2),
            (4, 5, 3),
            (5, 4, 3),
            (4, 7, 2),
            (7, 4, 2),
            (8, 9, 3),
            (9, 8, 3),
            (9, 10, 2),
            (10, 9, 2),
            (10, 11, 2),
            (11, 10, 2),
            (11, 8, 2),
            (8, 11, 2),
            (12, 13, 2),
            (13, 12, 2),
            (13, 14, 2),
            (14, 13, 2),
            (14, 15, 3),
            (15, 14, 3),
            (15, 12, 2),
            (12, 15, 2),
            (12, 16, 6),
            (16, 12, 6),
            (16, 0, 5),
            (0, 16, 5),
            (13, 7, 7),
            (7, 13, 7),
            (2, 4, 6),
            (4, 2, 6),
            (14, 11, 14),
            (11, 14, 14),
        ],
    )
}

#[test]
fn dijkstra_forward_test() {
    let network = create_ref_network_1();
    let computed = ComputedState::new(3, &network);

    create_directed_acyclic_graph(NodeId(0), &computed, &network);
}

#[test]
fn highway_forward_test() {
    let network = create_ref_network_1();
    let computed = ComputedState::new(3, &network);

    println!("\nRadius: {:?}", computed.forward);

    println!("\nForward:");
    for v in 0..computed.forward.len() {
        println!("{}, {:?}", v, computed.forward.radius(NodeId(v as u32)));
    }

    println!("\nBackward:");
    for v in 0..computed.backward.len() {
        println!("{}, {:?}", v, computed.backward.radius(NodeId(v as u32)));
    }

    create_directed_acyclic_graph(NodeId(0), &computed, &network);
}

#[test]
fn dijkstra_level_test() {
    let network = create_undirected_network();
    let computed = ComputedState::new(4, &network);
    let s0 = NodeId(12);
    let edges = create_directed_acyclic_graph(s0, &computed, &network);

    println!("DAG:");
    for (n, i) in &edges.1 {
        println!("N: {},\t {:?}", n, i);
    }

    println!("Edges: {:?}", edges.0);

    let next_edges = collect_next_level_edges(s0, edges.0, edges.1, &computed);

    println!("Added:");
    for (parent, id) in next_edges {
        let edge = network.edge(id);
        assert_ne!(parent, edge.target());
        println!("ID: {:?} - {:?}", id, edge);
    }
}

#[test]
fn dijkstra_test_all() {
    let network = create_undirected_network();
    let computed = ComputedState::new(4, &network);

    let mut next_edges = HashSet::new();

    for n in 0..=16 {
        let edges = calculate_edges(NodeId(n), &computed, &network);

        next_edges.extend(edges);
    }

    let mut next_edges = next_edges.into_iter().collect::<Vec<_>>();

    next_edges.sort();

    println!("Added:");
    for (_, id) in next_edges {
        let edge = network.edge(id);
        println!("ID: {:?} - {:?}", id, edge);
    }
}

/// The path 0 -> 1 -> 2 -> 3 -> 4 with edges of weight one. Its records:
/// 0: [0 ->1]; 1: [1 ->2, 2 <-0]; 2: [3 ->3, 4 <-1]; 3: [5 ->4, 6 <-2]; 4: [7 <-3].
fn path() -> DirectedNetworkGraph<()> {
    network_of(0, 4, &[(0, 1, 1), (1, 2, 1), (2, 3, 1), (3, 4, 1)])
}

#[test]
fn search_on_a_path_stops_where_the_neighbourhoods_are_left() {
    let network = path();
    let computed = ComputedState::new(2, &network);
    for v in 0..4 {
        assert_eq!(computed.forward.radius(NodeId(v)), 1);
        assert_eq!(computed.backward.radius(NodeId(v + 1)), 1);
    }
    assert_eq!(computed.forward.radius(NodeId(4)), 0);
    assert_eq!(computed.backward.radius(NodeId(0)), 0);

    let (order, visited) = create_directed_acyclic_graph(NodeId(0), &computed, &network);
    // node 3 is the first that lies beyond the border distance of two; its
    // reference distance is the distance of node 1, and with its backward
    // radius of one that is less than its own distance of three: the
    // search is no longer active behind it, and node 4 is not settled
    assert_eq!(
        order,
        VecDeque::from(vec![
            (NodeId(3), (EdgeId(3), 3)),
            (NodeId(2), (EdgeId(1), 2)),
            (NodeId(1), (EdgeId(0), 1)),
        ])
    );
    assert_eq!(visited.len(), 4);
    let link = |parent: u32, edge: u32| ParentLink {
        parent: NodeId(parent),
        edge: Some(EdgeId(edge)),
        weight: 1,
    };
    assert_eq!(
        visited[&0],
        VisitedState {
            border_distance: 0,
            reference_distance: None,
            distance: 0,
            parents: vec![ParentLink { parent: NodeId(0), edge: None, weight: 0 }],
        }
    );
    assert_eq!(
        visited[&1],
        VisitedState {
            border_distance: 2,
            reference_distance: None,
            distance: 1,
            parents: vec![link(0, 0)],
        }
    );
    assert_eq!(
        visited[&2],
        VisitedState {
            border_distance: 2,
            reference_distance: None,
            distance: 2,
            parents: vec![link(1, 1)],
        }
    );
    assert_eq!(
        visited[&3],
        VisitedState {
            border_distance: 2,
            reference_distance: Some(1),
            distance: 3,
            parents: vec![link(2, 3)],
        }
    );

    // the sweep: node 3 hands nothing on, node 2 hands on less than
    // nothing, and so does node 1
    let kept = collect_next_level_edges(NodeId(0), order, visited, &computed);
    assert_eq!(kept, vec![(NodeId(1), EdgeId(1)), (NodeId(0), EdgeId(0))]);
    assert_eq!(calculate_edges(NodeId(0), &computed, &network), kept);
    assert_eq!(calculate_edges(NodeId(4), &computed, &network), vec![]);
}

#[test]
fn equally_short_ways_into_a_node_are_merged() {
    // two ways of weight two from 0 to 3
    let network = network_of(0, 4, &[(0, 1, 1), (0, 2, 1), (1, 3, 1), (2, 3, 1), (3, 4, 5)]);
    let computed = ComputedState::new(2, &network);
    let (order, visited) = create_directed_acyclic_graph(NodeId(0), &computed, &network);
    let settled: Vec<(u32, u64)> = order.iter().map(|x| (x.0 .0, x.1 .1)).collect();
    assert_eq!(settled[settled.len() - 1], (1, 1));
    assert_eq!(settled[settled.len() - 2], (2, 1));
    assert_eq!(settled[settled.len() - 3], (3, 2));
    let parents: Vec<u32> = visited[&3].parents.iter().map(|l| l.parent.0).collect();
    assert_eq!(parents, vec![1, 2]);
    for l in &visited[&3].parents {
        let e = network.edge(l.edge.unwrap());
        assert_eq!(e.target(), NodeId(3));
        assert_eq!(e.weight(), l.weight);
        assert_eq!(visited[&l.parent.0].distance + l.weight as u64, visited[&3].distance);
    }
    // descending distances
    for pair in settled.windows(2) {
        assert!(pair[0].1 >= pair[1].1);
    }
}

#[test]
fn queue_merges_the_entries_of_one_node_at_one_distance() {
    let mut queue = HighwayNodeQueue::new(4, 4);
    let known = |distance: u64, border: u64, reference: Option<u64>| VisitedState {
        border_distance: border,
        reference_distance: reference,
        distance,
        parents: vec![ParentLink { parent: NodeId(0), edge: None, weight: 0 }],
    };
    assert_eq!(queue.visited(NodeId(0), known(0, 0, None)), None);
    assert_eq!(queue.visited(NodeId(1), known(2, 7, Some(3))), None);
    assert_eq!(queue.visited(NodeId(2), known(3, 9, Some(5))), None);
    assert!(queue.visited_state(NodeId(1)).is_some());
    assert!(queue.visited_state(NodeId(5)).is_none());
    assert_eq!(queue.visited_ref().len(), 3);
    let entry = |distance: u64, current: u32, parent: u32, edge: u32, w: u32, active: bool| {
        DijkstraNodeState {
            distance,
            current: NodeId(current),
            parent: ParentEntry {
                parent: NodeId(parent),
                parent_edge: EdgeId(edge),
                parent_edge_distance: w,
                active,
            },
        }
    };
    assert!(!queue.is_active());
    assert!(queue.pop().is_none());
    queue.push(entry(6, 4, 1, 10, 4, false));
    assert!(!queue.is_active());
    queue.push(entry(9, 5, 2, 11, 6, true));
    queue.push(entry(6, 4, 2, 12, 3, true));
    queue.push(entry(4, 1, 2, 13, 1, true)); // node 1 is settled: stale
    queue.push(entry(6, 3, 1, 14, 4, false));
    assert!(queue.is_active());

    // the least key that is not stale is (6, node 3)
    let first = queue.pop().unwrap();
    assert_eq!(first.state, entry(6, 3, 1, 14, 4, false));
    assert_eq!(first.border_distance, 7);
    assert_eq!(first.reference_distance, Some(3));
    assert!(!first.parent_active);
    assert_eq!(
        first.parents,
        vec![ParentLink { parent: NodeId(1), edge: Some(EdgeId(14)), weight: 4 }]
    );
    queue.visited(NodeId(3), known(6, 7, Some(3)));

    // then (6, node 4), reached over two parents
    let second: HighwayQueueEntry = queue.pop().unwrap();
    assert_eq!(second.state, entry(6, 4, 2, 12, 3, true));
    assert_eq!(second.border_distance, 9);
    assert_eq!(second.reference_distance, Some(5));
    assert!(second.parent_active);
    assert_eq!(
        second.parents,
        vec![
            ParentLink { parent: NodeId(1), edge: Some(EdgeId(10)), weight: 4 },
            ParentLink { parent: NodeId(2), edge: Some(EdgeId(12)), weight: 3 },
        ]
    );
    queue.visited(NodeId(4), known(6, 9, Some(5)));
    assert!(queue.is_active());
    let third = queue.pop().unwrap();
    assert_eq!(third.state.current, NodeId(5));
    assert!(!queue.is_active());
    assert!(queue.pop().is_none());
    assert_eq!(queue.into_visited().len(), 5);
}

#[test]
fn queue_drops_everything_when_only_settled_nodes_wait() {
    let mut queue = HighwayNodeQueue::new(0, 0);
    let state = VisitedState {
        border_distance: 0,
        reference_distance: None,
        distance: 0,
        parents: vec![ParentLink { parent: NodeId(0), edge: None, weight: 0 }],
    };
    queue.visited(NodeId(0), state.clone());
    queue.visited(NodeId(1), state);
    queue.push(DijkstraNodeState {
        distance: 3,
        current: NodeId(1),
        parent: ParentEntry {
            parent: NodeId(0),
            parent_edge: EdgeId(0),
            parent_edge_distance: 3,
            active: true,
        },
    });
    assert!(queue.is_active());
    assert!(queue.pop().is_none());
    assert!(!queue.is_active());
}

#[test]
fn links_and_reference_distances_are_joined() {
    let mut links = Vec::new();
    insert_link(&mut links, ParentLink { parent: NodeId(4), edge: Some(EdgeId(1)), weight: 2 });
    insert_link(&mut links, ParentLink { parent: NodeId(5), edge: Some(EdgeId(2)), weight: 2 });
    insert_link(&mut links, ParentLink { parent: NodeId(4), edge: Some(EdgeId(3)), weight: 2 });
    assert_eq!(
        links,
        vec![
            ParentLink { parent: NodeId(4), edge: Some(EdgeId(3)), weight: 2 },
            ParentLink { parent: NodeId(5), edge: Some(EdgeId(2)), weight: 2 },
        ]
    );
    assert_eq!(larger_reference(Some(3), Some(8)), Some(8));
    assert_eq!(larger_reference(Some(9), Some(8)), Some(9));
    assert_eq!(larger_reference(None, Some(8)), None);
    assert_eq!(larger_reference(Some(3), None), None);
}

#[test]
fn border_and_reference_rules() {
    let computed = ComputedState {
        forward: ForwardNeighbourhood::from_radii(vec![5, 6, 7]),
        backward: BackwardNeighbourhood::from_radii(vec![1, 2, 3]),
    };
    let from_source = vec![
        ParentLink { parent: NodeId(2), edge: Some(EdgeId(4)), weight: 9 },
        ParentLink { parent: NodeId(0), edge: Some(EdgeId(0)), weight: 4 },
    ];
    // the source is a parent: weight of its edge plus the radius of the node
    assert_eq!(border_distance(NodeId(0), NodeId(1), &from_source, &computed, 100), 4 + 6);
    // it is not: the border distance of the parents
    assert_eq!(border_distance(NodeId(1), NodeId(2), &from_source, &computed, 100), 100);
    // the sum is held at the largest number
    let far = ForwardNeighbourhood::from_radii(vec![0, u64::MAX]);
    let computed_far = ComputedState { forward: far, backward: BackwardNeighbourhood::from_radii(vec![0, 0]) };
    assert_eq!(
        border_distance(NodeId(0), NodeId(1), &from_source, &computed_far, 0),
        u64::MAX
    );

    assert!(should_abort(Some(3), 4, 8));
    assert!(!should_abort(Some(3), 5, 8));
    assert!(!should_abort(None, 0, 8));
    assert!(!should_abort(Some(u64::MAX), u64::MAX, u64::MAX));

    let mut visited: HashMap<u32, VisitedState> = HashMap::new();
    let state = |distance: u64, parents: Vec<u32>| VisitedState {
        border_distance: 0,
        reference_distance: None,
        distance,
        parents: parents
            .into_iter()
            .map(|p| ParentLink { parent: NodeId(p), edge: None, weight: 1 })
            .collect(),
    };
    visited.insert(0, state(0, vec![0]));
    visited.insert(1, state(4, vec![0]));
    visited.insert(2, state(6, vec![0, 1]));
    visited.insert(3, state(7, vec![1]));
    let entry = |reference: Option<u64>| HighwayQueueEntry {
        state: DijkstraNodeState {
            distance: 9,
            current: NodeId(4),
            parent: ParentEntry {
                parent: NodeId(2),
                parent_edge: EdgeId(0),
                parent_edge_distance: 3,
                active: true,
            },
        },
        parents: vec![
            ParentLink { parent: NodeId(2), edge: Some(EdgeId(0)), weight: 3 },
            ParentLink { parent: NodeId(3), edge: Some(EdgeId(1)), weight: 2 },
        ],
        border_distance: 8,
        reference_distance: reference,
        parent_active: true,
    };
    // beyond the border and not fixed: the farthest parent of a parent
    assert_eq!(reference_distance(&entry(None), 8, &visited), Some(4));
    // within the border: stays as it is
    assert_eq!(reference_distance(&entry(None), 9, &visited), None);
    // fixed: inherited
    assert_eq!(reference_distance(&entry(Some(2)), 8, &visited), Some(2));
}

#[test]
fn sweep_passes_over_nodes_within_the_radius_of_the_source() {
    let computed = ComputedState {
        forward: ForwardNeighbourhood::from_radii(vec![3, 0, 0]),
        backward: BackwardNeighbourhood::from_radii(vec![0, 0, 0]),
    };
    let link = |parent: u32, edge: u32, weight: u32| ParentLink {
        parent: NodeId(parent),
        edge: Some(EdgeId(edge)),
        weight,
    };
    let state = |distance: u64, parents: Vec<ParentLink>| VisitedState {
        border_distance: 0,
        reference_distance: None,
        distance,
        parents,
    };
    let mut visited: HashMap<u32, VisitedState> = HashMap::new();
    visited.insert(0, state(0, vec![ParentLink { parent: NodeId(0), edge: None, weight: 0 }]));
    visited.insert(1, state(2, vec![link(0, 0, 2)]));
    visited.insert(2, state(3, vec![link(1, 1, 1)]));
    let order = VecDeque::from(vec![(NodeId(2), (EdgeId(1), 3)), (NodeId(1), (EdgeId(0), 2))]);
    // node 2 lies at the radius and is swept, node 1 lies nearer and is not
    let kept = collect_next_level_edges(NodeId(0), order, visited, &computed);
    assert_eq!(kept, vec![(NodeId(1), EdgeId(1))]);
}

#[test]
fn an_edge_within_the_backward_radius_of_its_end_is_kept_by_no_search() {
    let network = path();
    let computed = ComputedState::new(2, &network);
    let mut kept: HashSet<(u32, u32)> = HashSet::new();
    for s in 0..5u32 {
        for (source, edge) in calculate_edges(NodeId(s), &computed, &network) {
            kept.insert((source.0, edge.0));
        }
    }
    // node 4 has no edge that leaves it, and the edge that enters it is no
    // longer than its backward radius
    let expected: HashSet<(u32, u32)> = [(0, 0), (1, 1), (2, 3)].into_iter().collect();
    assert_eq!(kept, expected);
}

#[test]
fn kept_edges_are_those_with_a_far_node_behind_them() {
    // every edge that a search keeps enters a node at or beyond the forward
    // radius of the source, and some settled node behind it lies farther
    // from the start of the edge than its own backward radius; no other
    // edge of a shortest path between settled nodes is kept
    let network = create_ref_network_1();
    let computed = ComputedState::new(3, &network);
    for s in 0..network.node_count() as u32 {
        let (order, visited) = create_directed_acyclic_graph(NodeId(s), &computed, &network);
        let kept: HashSet<(u32, u32)> = collect_next_level_edges(NodeId(s), order.clone(), visited.clone(), &computed)
            .into_iter()
            .map(|(p, e)| (p.0, e.0))
            .collect();
        // the farthest that a node lies behind each settled node, less its
        // backward radius: found from the farthest node to the nearest
        let mut reach: HashMap<u32, i64> = HashMap::new();
        let mut expected: HashSet<(u32, u32)> = HashSet::new();
        for (node, (_, distance)) in order.iter() {
            let own = -(computed.backward.radius(*node) as i64);
            let behind = *reach.get(&node.0).unwrap_or(&own);
            let behind = behind.max(own);
            for link in visited[&node.0].parents.iter() {
                let through = behind + link.weight as i64;
                if *distance >= computed.forward.radius(NodeId(s)) {
                    if through > 0 {
                        expected.insert((link.parent.0, link.edge.unwrap().0));
                    }
                    let own_parent = -(computed.backward.radius(link.parent) as i64);
                    let known = *reach.get(&link.parent.0).unwrap_or(&own_parent);
                    reach.insert(link.parent.0, known.max(through));
                }
            }
        }
        assert_eq!(kept, expected);
    }
}

#[test]
fn every_record_of_the_search_names_an_edge_into_its_node() {
    for network in [create_ref_network_1(), path()] {
        let computed = ComputedState::new(3, &network);
        for s in 0..network.node_count() as u32 {
            let (order, visited) = create_directed_acyclic_graph(NodeId(s), &computed, &network);
            for (node, (edge, distance)) in order.iter() {
                let state = &visited[&node.0];
                assert_eq!(state.distance, *distance);
                let link = state.parents.iter().find(|l| l.edge == Some(*edge)).unwrap();
                let record = network.edge(*edge);
                assert_eq!(record.target(), *node);
                assert_eq!(record.weight(), link.weight);
                assert_eq!(visited[&link.parent.0].distance + link.weight as u64, *distance);
                assert!(network.out_edges(link.parent).iter().any(|(id, _)| id == edge));
            }
        }
    }
}
