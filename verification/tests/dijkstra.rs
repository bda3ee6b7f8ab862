use highway_hierarchy::builder::{DefaultEdgeBuilder, DirectedNetworkBuilder, EdgeDirection};
use highway_hierarchy::dijkstra::DijkstraIterator;
use highway_hierarchy::graph::{DirectedNetworkGraph, NetworkEdge, NetworkNode};
use highway_hierarchy::ids::NodeId;

fn network_of(first: usize, last: usize, edges: &[(usize, usize, u64)]) -> DirectedNetworkGraph<()> {
    let mut builder = DirectedNetworkBuilder::<usize, DefaultEdgeBuilder>::new();
    for x in first..=last {
        builder.add_node(x);
    }
    for &(a, b, c) in edges {
        let source = builder.add_node(a);
        let target = builder.add_node(b);
        builder.add_edge(DefaultEdgeBuilder::forward(source, target, 0, c));
    }
    builder.build::<()>().unwrap()
}

// https://www.baeldung.com/wp-content/uploads/2017/01/initial-graph.png
fn reference_network() -> DirectedNetworkGraph<()> {
    network_of(
        0,
        5,
        &[
            (0, 1, 10), // A => B
            (0, 2, 15), // A => C
            (1, 3, 12), // B => D
            (1, 5, 15), // B => F
            (2, 4, 10), // C => E
            (3, 4, 2),  // D => E
            (3, 5, 1),  // D => F
            (5, 4, 5),  // F => E
        ],
    )
}

fn create_ref_network_1() -> DirectedNetworkGraph<()> {
    let nodes = vec![
        NetworkNode::new(0, 2),
        NetworkNode::new(2, 5),
        NetworkNode::new(5, 7),
        NetworkNode::new(7, 10),
        NetworkNode::new(10, 13),
        NetworkNode::new(13, 16),
    ];
    let edges = vec![
        NetworkEdge::new(0, 1u32.into(), 10, EdgeDirection::Forward), // A -> B
        NetworkEdge::new(1, 2u32.into(), 15, EdgeDirection::Forward), // A -> C
        NetworkEdge::new(2, 3u32.into(), 12, EdgeDirection::Forward), // B -> D
        NetworkEdge::new(3, 5u32.into(), 15, EdgeDirection::Forward), // B -> F
        NetworkEdge::new(4, 0u32.into(), 10, EdgeDirection::Backward), // A <- B
        NetworkEdge::new(5, 4u32.into(), 10, EdgeDirection::Forward), // C -> E
        NetworkEdge::new(6, 0u32.into(), 15, EdgeDirection::Backward), // A <- C
        NetworkEdge::new(7, 4u32.into(), 2, EdgeDirection::Forward),  // D -> E
        NetworkEdge::new(8, 5u32.into(), 1, EdgeDirection::Forward),  // D -> F
        NetworkEdge::new(9, 1u32.into(), 12, EdgeDirection::Backward), // B <- D
        NetworkEdge::new(10, 2u32.into(), 10, EdgeDirection::Backward), // C <- E
        NetworkEdge::new(11, 3u32.into(), 2, EdgeDirection::Backward), // D <- E
        NetworkEdge::new(12, 5u32.into(), 5, EdgeDirection::Backward), // F <- E
        NetworkEdge::new(13, 4u32.into(), 5, EdgeDirection::Forward), // F -> E
        NetworkEdge::new(14, 1u32.into(), 15, EdgeDirection::Backward), // B <- F
        NetworkEdge::new(15, 3u32.into(), 1, EdgeDirection::Backward), // D <- F
    ];

    DirectedNetworkGraph::new(nodes, edges, ())
}

#[test]
fn forward_dijkstra_test() {
    let network = reference_network();

    let forward = (0..=5u32)
        .map(|i| network.forward_iterator(i.into()).collect())
        .collect::<Vec<Vec<(NodeId, u64)>>>();

    assert_eq!(
        forward[0],
        vec![
            (0u32.into(), 0u64),
            (1u32.into(), 10u64),
            (2u32.into(), 15u64),
            (3u32.into(), 22u64),
            (5u32.into(), 23u64),
            (4u32.into(), 24u64),
        ]
    );
    assert_eq!(
        forward[1],
        vec![
            (1u32.into(), 0u64),
            (3u32.into(), 12u64),
            (5u32.into(), 13u64),
            (4u32.into(), 14u64),
        ]
    );
    assert_eq!(forward[2], vec![(2u32.into(), 0u64), (4u32.into(), 10u64),]);

    assert_eq!(
        forward[3],
        vec![(3u32.into(), 0u64), (5u32.into(), 1u64), (4u32.into(), 2u64),]
    );
    assert_eq!(forward[4], vec![(4u32.into(), 0u64)]);
    assert_eq!(forward[5], vec![(5u32.into(), 0u64), (4u32.into(), 5u64)]);
}

#[test]
fn backward_dijkstra_test() {
    let network = reference_network();

    let backward = (0..=5u32)
        .map(|i| network.backward_iterator(i.into()).collect())
        .collect::<Vec<Vec<(NodeId, u64)>>>();

    assert_eq!(backward[0], vec![(0u32.into(), 0u64),]);
    assert_eq!(backward[1], vec![(1u32.into(), 0u64), (0u32.into(), 10u64),]);

    assert_eq!(backward[2], vec![(2u32.into(), 0u64), (0u32.into(), 15u64),]);

    assert_eq!(
        backward[3],
        vec![(3u32.into(), 0u64), (1u32.into(), 12u64), (0u32.into(), 22u64),]
    );
    assert_eq!(
        backward[4],
        vec![
            (4u32.into(), 0u64),
            (3u32.into(), 2u64),
            (5u32.into(), 5u64),
            (2u32.into(), 10u64),
            (1u32.into(), 14u64),
            (0u32.into(), 24u64),
        ]
    );
    assert_eq!(
        backward[5],
        vec![
            (5u32.into(), 0u64),
            (3u32.into(), 1u64),
            (1u32.into(), 13u64),
            (0u32.into(), 23u64),
        ]
    );
}

#[test]
fn mod_test_forward() {
    let network = create_ref_network_1();
    let forward = network.forward_iterator(0u32.into()).collect();

    assert_eq!(
        vec![
            (NodeId(0), 0),  // A 0.0
            (NodeId(1), 10), // B 10.0
            (NodeId(2), 15), // C 15.0
            (NodeId(3), 22), // D 22
            (NodeId(5), 23), // F 23
            (NodeId(4), 24), // E 24
        ],
        forward
    );
}

#[test]
fn mod_test_forward_empty() {
    let network = create_ref_network_1();
    let forward = network.forward_iterator(4u32.into()).collect();

    assert_eq!(vec![(NodeId(4), 0)], forward);
}

#[test]
fn mod_test_backward() {
    let network = create_ref_network_1();
    let backward = network.backward_iterator(4u32.into()).collect();

    assert_eq!(
        vec![
            (NodeId(4), 0),
            (NodeId(3), 2),
            (NodeId(5), 5),
            (NodeId(2), 10),
            (NodeId(1), 14),
            (NodeId(0), 24),
        ],
        backward
    );
}

#[test]
fn mod_test_backward_empty() {
    let network = create_ref_network_1();
    let backward = network.backward_iterator(0u32.into()).collect();

    assert_eq!(vec![(NodeId(0), 0)], backward);
}

#[test]
fn search_steps_one_node_at_a_time() {
    let network = reference_network();
    let mut search = DijkstraIterator::new(&network, NodeId(3), EdgeDirection::Forward);
    assert_eq!(search.distance(), 0);
    assert_eq!(search.direction(), EdgeDirection::Forward);
    assert_eq!(search.next(), Some((NodeId(3), 0)));
    assert_eq!(search.next(), Some((NodeId(5), 1)));
    assert_eq!(search.distance(), 1);
    assert_eq!(search.next(), Some((NodeId(4), 2)));
    assert_eq!(search.next(), None);
    assert_eq!(search.next(), None);
    assert_eq!(search.distance(), 2);
}

#[test]
fn equal_distances_are_settled_by_ascending_node() {
    let network = network_of(0, 3, &[(0, 3, 5), (0, 2, 5), (0, 1, 5), (1, 2, 1)]);
    let order = network.forward_iterator(NodeId(0)).collect();
    assert_eq!(
        order,
        vec![(NodeId(0), 0), (NodeId(1), 5), (NodeId(2), 5), (NodeId(3), 5)]
    );
}

#[test]
fn every_reachable_node_is_settled_once_at_its_shortest_distance() {
    // a small graph with a cycle and a detour that is shorter than the
    // direct edge
    let edges = [
        (0usize, 1usize, 7u64),
        (0, 2, 2),
        (2, 1, 3),
        (1, 3, 1),
        (3, 0, 4),
        (3, 4, 9),
        (2, 4, 20),
        (5, 0, 1),
    ];
    let network = network_of(0, 5, &edges);
    // all-pairs distances by repeated relaxation
    let n = 6;
    let far = u64::MAX;
    let mut dist = vec![vec![far; n]; n];
    for v in 0..n {
        dist[v][v] = 0;
    }
    for _ in 0..n {
        for &(a, b, w) in &edges {
            for s in 0..n {
                if dist[s][a] != far && dist[s][a] + w < dist[s][b] {
                    dist[s][b] = dist[s][a] + w;
                }
            }
        }
    }
    for s in 0..n {
        let order = network.forward_iterator(NodeId(s as u32)).collect();
        let mut seen = vec![false; n];
        let mut last = 0;
        for (node, d) in &order {
            assert!(!seen[node.0 as usize]);
            seen[node.0 as usize] = true;
            assert_eq!(*d, dist[s][node.0 as usize]);
            assert!(last <= *d);
            last = *d;
        }
        for v in 0..n {
            assert_eq!(seen[v], dist[s][v] != far);
        }
    }
}
