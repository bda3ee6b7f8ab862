use highway_hierarchy::builder::{
    DefaultEdgeBuilder, DefaultNodeBuilder, DirectedNetworkBuilder, EdgeDirection, GraphError,
};
use highway_hierarchy::graph::{DirectedNetworkGraph, NetworkEdge, NetworkNode};
use highway_hierarchy::ids::{EdgeId, NodeId};
use highway_hierarchy::node_data::{DefaultNetworkData, IntermediateData, NetworkData};
use highway_hierarchy::shortcut::ShortcutState;

// https://www.baeldung.com/wp-content/uploads/2017/01/initial-graph.png
fn create_ref_network_1() -> DirectedNetworkGraph<()> {
    let nodes = vec![
        NetworkNode::new(0, 2),
        NetworkNode::new(2, 5),
        NetworkNode::new(5, 7),
        NetworkNode::new(7, 10),
        NetworkNode::new(10, 13),
        NetworkNode::new(13, 16),
    ];
    let edges = vec![
        NetworkEdge::new(0, 1u32.into(), 10, EdgeDirection::Forward), // A -> B
        NetworkEdge::new(1, 2u32.into(), 15, EdgeDirection::Forward), // A -> C
        NetworkEdge::new(2, 3u32.into(), 12, EdgeDirection::Forward), // B -> D
        NetworkEdge::new(3, 5u32.into(), 15, EdgeDirection::Forward), // B -> F
        NetworkEdge::new(4, 0u32.into(), 10, EdgeDirection::Backward), // A <- B
        NetworkEdge::new(5, 4u32.into(), 10, EdgeDirection::Forward), // C -> E
        NetworkEdge::new(6, 0u32.into(), 15, EdgeDirection::Backward), // A <- C
        NetworkEdge::new(7, 4u32.into(), 2, EdgeDirection::Forward),  // D -> E
        NetworkEdge::new(8, 5u32.into(), 1, EdgeDirection::Forward),  // D -> F
        NetworkEdge::new(9, 1u32.into(), 12, EdgeDirection::Backward), // B <- D
        NetworkEdge::new(10, 2u32.into(), 10, EdgeDirection::Backward), // C <- E
        NetworkEdge::new(11, 3u32.into(), 2, EdgeDirection::Backward), // D <- E
        NetworkEdge::new(12, 5u32.into(), 5, EdgeDirection::Backward), // F <- E
        NetworkEdge::new(13, 4u32.into(), 5, EdgeDirection::Forward), // F -> E
        NetworkEdge::new(14, 1u32.into(), 15, EdgeDirection::Backward), // B <- F
        NetworkEdge::new(15, 3u32.into(), 1, EdgeDirection::Backward), // D <- F
    ];

    DirectedNetworkGraph::new(nodes, edges, ())
}

fn create_network() -> DirectedNetworkGraph<()> {
    let mut builder = DirectedNetworkBuilder::<usize, DefaultEdgeBuilder>::new();

    let na = builder.add_node(0);
    let nb = builder.add_node(1);
    let nc = builder.add_node(2);
    let nd = builder.add_node(3);
    let ne = builder.add_node(4);
    let nf = builder.add_node(5);

    builder.add_edge(DefaultEdgeBuilder::forward(na, nb, 0, 10));
    builder.add_edge(DefaultEdgeBuilder::forward(nb, nd, 0, 12));
    builder.add_edge(DefaultEdgeBuilder::forward(nd, ne, 0, 2));
    builder.add_edge(DefaultEdgeBuilder::forward(na, nc, 0, 15));
    builder.add_edge(DefaultEdgeBuilder::forward(nc, ne, 0, 10));
    builder.add_edge(DefaultEdgeBuilder::forward(nf, ne, 0, 5));
    builder.add_edge(DefaultEdgeBuilder::forward(nb, nf, 0, 15));
    builder.add_edge(DefaultEdgeBuilder::forward(nd, nf, 0, 1));

    builder.build().unwrap()
}

/// The graph of the nodes `first..=last`, added in order, and of the edges.
fn network_of(first: usize, last: usize, edges: &[(usize, usize, u64)]) -> DirectedNetworkGraph<()> {
    let mut builder = DirectedNetworkBuilder::<usize, DefaultEdgeBuilder>::new();
    for x in first..=last {
        builder.add_node(x);
    }
    for &(a, b, c) in edges {
        let source = builder.add_node(a);
        let target = builder.add_node(b);
        builder.add_edge(DefaultEdgeBuilder::forward(source, target, 0, c));
    }
    builder.build::<()>().unwrap()
}

#[test]
fn builder_builder_test() {
    let n1 = create_ref_network_1();
    let n2 = create_network();

    assert_eq!(n1, n2);
}

#[test]
fn reverse() {
    assert_eq!(EdgeDirection::Backward.neg(), EdgeDirection::Forward);
    assert_eq!(EdgeDirection::Forward.neg(), EdgeDirection::Backward);
    assert_eq!(EdgeDirection::Both.neg(), EdgeDirection::Both);
}

#[test]
fn tests_create_test() {
    let reference_network = create_ref_network_1();
    // Gotta put it in weird order so it sees creation of nodes in correct order, the numbers are labels after all.
    let network = network_of(
        0,
        5,
        &[
            (0, 1, 10),
            (0, 2, 15),
            (1, 3, 12),
            (1, 5, 15),
            (2, 4, 10),
            (3, 4, 2),
            (3, 5, 1),
            (5, 4, 5),
        ],
    );
    assert_eq!(network.nodes(), reference_network.nodes(), "Fails on nodes");
    assert_eq!(network.edges(), reference_network.edges(), "Fails on edges");
    assert_eq!(network, reference_network);
}

#[test]
fn out_edge_test() {
    let network = network_of(
        0,
        3,
        &[
            (0, 1, 10), // A => B
            (0, 2, 15), // A => C
            (1, 3, 12), // B => D
            (3, 0, 15), // B => F
            (2, 0, 10), // C => E
        ],
    );

    let out_edges = network.out_edges(0u32.into());
    assert_eq!(out_edges.len(), 2);

    assert_eq!(out_edges[0].1.target(), 1u32.into());
    assert_eq!(out_edges[1].1.target(), 2u32.into());
}

#[test]
fn in_edge_test() {
    let network = network_of(
        0,
        3,
        &[
            (0, 1, 10), // A => B
            (0, 2, 15), // A => C
            (1, 3, 12), // B => D
            (3, 0, 15), // B => F
            (2, 0, 10), // C => E
        ],
    );

    let out_edges = network.in_edges(0u32.into());
    assert_eq!(out_edges.len(), 2);

    assert_eq!(out_edges[0].1.target(), 2u32.into());
    assert_eq!(out_edges[1].1.target(), 3u32.into());
}

#[test]
fn built_graph_is_valid_and_reports_its_size() {
    let network = create_network();
    assert!(network.is_valid());
    assert_eq!(network.node_count(), 6);
    assert_eq!(network.edge_count(), 16);
    assert_eq!(*network.node(NodeId(1)), NetworkNode::new(2, 5));
    assert_eq!(network.edge(EdgeId(7)).weight(), 2);
    assert_eq!(network.edge(EdgeId(7)).distance(), 2);
    assert_eq!(network.edge(EdgeId(7)).direction(), EdgeDirection::Forward);
    let raw = network.out_edges_raw(&NetworkNode::new(2, 5));
    assert_eq!(raw.len(), 2);
    assert_eq!(raw[0].0, EdgeId(2));
    let raw = network.in_edges_raw(&NetworkNode::new(2, 5));
    assert_eq!(raw.len(), 1);
    assert_eq!(raw[0].0, EdgeId(4));
}

#[test]
fn hand_made_graph_with_dangling_target_is_not_valid() {
    let nodes = vec![NetworkNode::new(0, 1)];
    let edges = vec![NetworkEdge::new(0, NodeId(3), 1, EdgeDirection::Forward)];
    assert!(!DirectedNetworkGraph::new(nodes, edges, ()).is_valid());
    let nodes = vec![NetworkNode::new(0, 1), NetworkNode::new(1, 1)];
    let edges = vec![NetworkEdge::new(0, NodeId(1), 0, EdgeDirection::Forward)];
    assert!(!DirectedNetworkGraph::new(nodes, edges, ()).is_valid());
    let nodes = vec![NetworkNode::new(0, 2), NetworkNode::new(1, 1)];
    let edges = vec![NetworkEdge::new(0, NodeId(1), 4, EdgeDirection::Forward)];
    assert!(!DirectedNetworkGraph::new(nodes, edges, ()).is_valid());
}

#[test]
fn nodes_are_numbered_in_the_order_of_their_labels() {
    let mut builder = DirectedNetworkBuilder::<DefaultNodeBuilder, DefaultEdgeBuilder>::new();
    let a = builder.add_node(DefaultNodeBuilder(NodeId(40)));
    let b = builder.add_node(DefaultNodeBuilder(NodeId(7)));
    let again = builder.add_node(DefaultNodeBuilder(NodeId(40)));
    assert_eq!(a, NodeId(0));
    assert_eq!(b, NodeId(1));
    assert_eq!(again, NodeId(0));
    assert_eq!(builder.node_count(), 2);
}

#[test]
fn later_edge_between_the_same_nodes_replaces_the_earlier() {
    let mut builder = DirectedNetworkBuilder::<usize, DefaultEdgeBuilder>::new();
    let a = builder.add_node(0);
    let b = builder.add_node(1);
    builder.add_edge(DefaultEdgeBuilder::forward(a, b, 0, 10));
    builder.add_edge(DefaultEdgeBuilder::forward(a, b, 0, 4));
    let network = builder.build::<()>().unwrap();
    assert_eq!(network.edge_count(), 2);
    assert_eq!(network.out_edges(a)[0].1.weight(), 4);
    assert_eq!(network.in_edges(b)[0].1.weight(), 4);
}

#[test]
fn bidirectional_edge_is_seen_from_both_ends() {
    let mut builder = DirectedNetworkBuilder::<usize, DefaultEdgeBuilder>::new();
    let a = builder.add_node(0);
    let b = builder.add_node(1);
    builder.add_edge(DefaultEdgeBuilder::both(a, b, 3, 6));
    let network = builder.build::<()>().unwrap();
    assert_eq!(network.out_edges(a).len(), 1);
    assert_eq!(network.in_edges(a).len(), 1);
    assert_eq!(network.out_edges(b).len(), 1);
    assert_eq!(network.out_edges(b)[0].1.target(), a);
    assert_eq!(network.out_edges(b)[0].1.direction(), EdgeDirection::Both);
}

#[test]
fn backward_tagged_edge_is_read_as_source_to_target() {
    let mut builder = DirectedNetworkBuilder::<usize, DefaultEdgeBuilder>::new();
    let a = builder.add_node(0);
    let b = builder.add_node(1);
    builder.add_edge(DefaultEdgeBuilder::backward(a, b, 0, 6));
    let network = builder.build::<()>().unwrap();
    assert_eq!(network.out_edges(a).len(), 1);
    assert_eq!(network.in_edges(b).len(), 1);
    assert_eq!(network.out_edges(b).len(), 0);
}

#[test]
fn build_rejects_bad_input() {
    // weight zero
    let mut builder = DirectedNetworkBuilder::<usize, DefaultEdgeBuilder>::new();
    let a = builder.add_node(0);
    let b = builder.add_node(1);
    builder.add_edge(DefaultEdgeBuilder::forward(a, b, 0, 0));
    assert_eq!(builder.build::<()>().err(), Some(GraphError::InvalidInput));
    // weight that does not fit
    let mut builder = DirectedNetworkBuilder::<usize, DefaultEdgeBuilder>::new();
    let a = builder.add_node(0);
    let b = builder.add_node(1);
    builder.add_edge(DefaultEdgeBuilder::forward(a, b, 0, 1 << 32));
    assert_eq!(builder.build::<()>().err(), Some(GraphError::InvalidInput));
    // target that was never added
    let mut builder = DirectedNetworkBuilder::<usize, DefaultEdgeBuilder>::new();
    let a = builder.add_node(0);
    builder.add_edge(DefaultEdgeBuilder::forward(a, NodeId(9), 0, 3));
    assert_eq!(builder.build::<()>().err(), Some(GraphError::InvalidInput));
    // the same pair with two directions
    let mut builder = DirectedNetworkBuilder::<usize, DefaultEdgeBuilder>::new();
    let a = builder.add_node(0);
    let b = builder.add_node(1);
    builder.add_edge(DefaultEdgeBuilder::forward(a, b, 0, 3));
    builder.add_edge(DefaultEdgeBuilder::both(a, b, 0, 3));
    assert_eq!(builder.build::<()>().err(), Some(GraphError::InvalidInput));
}

#[test]
fn store_keeps_road_sections_of_every_record() {
    let mut builder = DirectedNetworkBuilder::<usize, DefaultEdgeBuilder>::new();
    let a = builder.add_node(0);
    let b = builder.add_node(1);
    let c = builder.add_node(2);
    builder.add_edge(DefaultEdgeBuilder::forward(a, b, 71, 3));
    builder.add_edge(DefaultEdgeBuilder::forward(b, c, 72, 4));
    let network = builder.build::<DefaultNetworkData<(), ()>>().unwrap();
    for (id, edge) in network.out_edges(a) {
        assert_eq!(edge.target(), b);
        assert!(network.data.knows_edge(id));
        assert_eq!(network.data.edge_road_id(id).into_vec(), vec![71]);
    }
    for (id, _) in network.in_edges(c) {
        assert_eq!(network.data.edge_road_id(id).into_vec(), vec![72]);
    }
    assert!(network.data.knows_node(NodeId(2)));
    assert!(!network.data.knows_node(NodeId(3)));
    // the store without memory answers with the number of the record
    let plain = network_of(0, 1, &[(0, 1, 5)]);
    assert_eq!(plain.data.edge_road_id(EdgeId(1)).into_vec(), vec![1]);
}

#[test]
fn a_new_store_answers_for_nothing_yet() {
    let mut levels = IntermediateData::with_size(4, 5);
    for i in 0..8u32 {
        assert!(!levels.knows_node(NodeId(i)));
        assert!(!levels.knows_edge(EdgeId(i)));
    }
    levels.add_node(NodeId(2), NodeId(7));
    levels.add_edge(EdgeId(1), ShortcutState::Shortcut(vec![3, 4]), ShortcutState::Single(9));
    assert!(levels.knows_node(NodeId(2)));
    assert_eq!(*levels.node_data(NodeId(2)), NodeId(7));
    assert!(levels.knows_edge(EdgeId(1)));
    assert_eq!(levels.edge_data(EdgeId(1)).to_vec(), vec![3, 4]);
    assert_eq!(levels.edge_road_id(EdgeId(1)).into_vec(), vec![9]);
    assert!(!levels.knows_node(NodeId(1)));
    assert!(!levels.knows_edge(EdgeId(0)));

    let arrays = DefaultNetworkData::<u32, u32>::with_size(3, 2);
    for i in 0..4u32 {
        assert!(!arrays.knows_node(NodeId(i)));
        assert!(!arrays.knows_edge(EdgeId(i)));
    }

    // the store that keeps nothing answers every question at once
    let nothing = <() as NetworkData>::with_size(0, 0);
    assert!(nothing.knows_node(NodeId(5)));
    assert_eq!(nothing.edge_road_id(EdgeId(6)).into_vec(), vec![6]);
}

#[test]
fn the_graph_answers_for_the_data_of_its_store() {
    let mut builder = DirectedNetworkBuilder::<usize, DefaultEdgeBuilder>::new();
    let a = builder.add_node(0);
    let b = builder.add_node(1);
    builder.add_edge(DefaultEdgeBuilder::forward(a, b, 41, 10));
    let network = builder.build::<DefaultNetworkData<(), ()>>().unwrap();
    for (id, _) in network.out_edges(a).into_iter().chain(network.in_edges(b)) {
        assert_eq!(network.edge_provenance(id), ShortcutState::Single(41));
        assert_eq!(*network.edge_data(id), ());
    }
    assert_eq!(*network.node_data(a), ());
}

#[test]
fn a_provenance_becomes_its_chain() {
    let one: Vec<u32> = ShortcutState::Single(1).into();
    assert_eq!(one, vec![1]);
    assert_eq!(Vec::from(ShortcutState::Shortcut(vec![1, 2, 3])), vec![1, 2, 3]);
}
