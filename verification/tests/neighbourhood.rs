use highway_hierarchy::builder::{DefaultEdgeBuilder, DirectedNetworkBuilder};
use highway_hierarchy::direction::EdgeDirection;
use highway_hierarchy::graph::DirectedNetworkGraph;
use highway_hierarchy::ids::NodeId;
use highway_hierarchy::neighbourhood::{
    find_neighbourhood_radius, BackwardNeighbourhood, ComputedState, ForwardNeighbourhood,
};

fn network_of(first: usize, last: usize, edges: &[(usize, usize, u64)]) -> DirectedNetworkGraph<()> {
    let mut builder = DirectedNetworkBuilder::<usize, DefaultEdgeBuilder>::new();
    for x in first..=last {
        builder.add_node(x);
    }
    for &(a, b, c) in edges {
        let source = builder.add_node(a);
        let target = builder.add_node(b);
        builder.add_edge(DefaultEdgeBuilder::forward(source, target, 0, c));
    }
    builder.build::<()>().unwrap()
}

// https://www.baeldung.com/wp-content/uploads/2017/01/initial-graph.png
fn reference_network() -> DirectedNetworkGraph<()> {
    network_of(
        0,
        5,
        &[
            (0, 1, 10), // A => B
            (0, 2, 15), // A => C
            (1, 3, 5),  // B => D
            (1, 5, 15), // B => F
            (2, 4, 10), // C => E
            (3, 4, 2),  // D => E
            (3, 5, 1),  // D => F
            (5, 4, 5),  // F => E
        ],
    )
}

#[test]
fn neighbourhood_forward_test() {
    let network = reference_network();

    let forward = ForwardNeighbourhood::from_network(3, &network);

    assert_eq!(forward.radius(NodeId(0)), 15);
    assert_eq!(forward.radius(NodeId(1)), 6);
    assert_eq!(forward.radius(NodeId(2)), 10);
    assert_eq!(forward.radius(NodeId(3)), 2);
    assert_eq!(forward.radius(NodeId(4)), 0);
    assert_eq!(forward.radius(NodeId(5)), 5);
}

#[test]
fn backward_test() {
    let network = reference_network();

    let forward = BackwardNeighbourhood::from_network(3, &network);

    assert_eq!(forward.radius(NodeId(0)), 0);
    assert_eq!(forward.radius(NodeId(1)), 10);
    assert_eq!(forward.radius(NodeId(2)), 15);
    assert_eq!(forward.radius(NodeId(3)), 15);
    assert_eq!(forward.radius(NodeId(4)), 5);
    assert_eq!(forward.radius(NodeId(5)), 6);
}

#[test]
fn radius_of_one_node_is_zero_and_of_none_is_missing() {
    let network = reference_network();
    for v in 0..6 {
        assert_eq!(
            find_neighbourhood_radius(NodeId(v), 1, &network, EdgeDirection::Forward),
            Some(0)
        );
        assert_eq!(
            find_neighbourhood_radius(NodeId(v), 0, &network, EdgeDirection::Forward),
            None
        );
    }
}

#[test]
fn radius_of_a_small_component_is_the_distance_of_its_farthest_node() {
    let network = reference_network();
    // from C only C and E can be reached
    assert_eq!(
        find_neighbourhood_radius(NodeId(2), 5, &network, EdgeDirection::Forward),
        Some(10)
    );
    assert_eq!(
        find_neighbourhood_radius(NodeId(0), 100, &network, EdgeDirection::Forward),
        Some(17)
    );
}

#[test]
fn radii_grow_with_the_size_of_the_neighbourhood() {
    let network = reference_network();
    for v in 0..6u32 {
        for direction in [EdgeDirection::Forward, EdgeDirection::Backward] {
            let mut last = 0;
            for size in 1..8 {
                let r = find_neighbourhood_radius(NodeId(v), size, &network, direction).unwrap();
                assert!(last <= r);
                last = r;
            }
        }
    }
}

#[test]
fn computed_state_holds_both_tables() {
    let network = reference_network();
    let computed = ComputedState::new(3, &network);
    assert_eq!(computed.forward.len(), 6);
    assert_eq!(computed.backward.len(), 6);
    assert_eq!(computed.forward.radius(NodeId(1)), 6);
    assert_eq!(computed.backward.radius(NodeId(1)), 10);
    let same = network.forward_neighbourhood(3);
    let back = network.backward_neighbourhood(3);
    for v in 0..6 {
        assert_eq!(same.radius(NodeId(v)), computed.forward.radius(NodeId(v)));
        assert_eq!(back.radius(NodeId(v)), computed.backward.radius(NodeId(v)));
    }
    let given = ForwardNeighbourhood::from_radii(vec![4, 5]);
    assert_eq!(given.radius(NodeId(1)), 5);
}
