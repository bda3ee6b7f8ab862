use highway_hierarchy::builder::{DefaultEdgeBuilder, DirectedNetworkBuilder, GraphError};
use highway_hierarchy::contraction::ContractionFactor;
use highway_hierarchy::direction::EdgeDirection;
use highway_hierarchy::graph::{DirectedNetworkGraph, NetworkEdge, NetworkNode};
use highway_hierarchy::ids::{EdgeId, NodeId};
use highway_hierarchy::intermediate::{IntermediateEdge, IntermediateNetwork};
use highway_hierarchy::layer::{
    calculate_layer, intermediate_from_edges, is_out_edge, keep_edges, phase_1, phase_2,
    to_directed_graph, write_level, LayerError,
};
use highway_hierarchy::node_data::{IntermediateData, NetworkData};
use highway_hierarchy::shortcut::ShortcutState;

fn network_of(first: usize, last: usize, edges: &[(usize, usize, u64)]) -> DirectedNetworkGraph<()> {
    let mut builder = DirectedNetworkBuilder::<usize, DefaultEdgeBuilder>::new();
    for x in first..=last {
        builder.add_node(x);
    }
    for &(a, b, c) in edges {
        let source = builder.add_node(a);
        let target = builder.add_node(b);
        builder.add_edge(DefaultEdgeBuilder::forward(source, target, 0, c));
    }
    builder.build::<()>().unwrap()
}

fn edge_list(network: &IntermediateNetwork) -> Vec<(u32, u32, u64, Vec<u32>)> {
    let mut out = Vec::new();
    for u in network.nodes() {
        for t in network.out_targets(u) {
            let e = network.edge(u, t).unwrap();
            out.push((u.0, t.0, e.weight(), e.data().into_vec()));
        }
    }
    out.sort();
    out
}

fn grid(side: usize) -> DirectedNetworkGraph<()> {
    let mut edges = Vec::new();
    let weight = |a: usize, b: usize| 1 + ((a * 7 + b * 13) % 5) as u64;
    for y in 0..side {
        for x in 0..side {
            let here = y * side + x;
            if x + 1 < side {
                edges.push((here, here + 1, weight(here, here + 1)));
                edges.push((here + 1, here, weight(here, here + 1)));
            }
            if y + 1 < side {
                edges.push((here, here + side, weight(here, here + side)));
                edges.push((here + side, here, weight(here, here + side)));
            }
        }
    }
    network_of(0, side * side - 1, &edges)
}

/// Checks that every record of `next` expands to a walk of the same weight
/// in `prev`, between the nodes for which its ends stand.
fn check_expansion<D: NetworkData>(prev: &DirectedNetworkGraph<D>, next: &DirectedNetworkGraph<IntermediateData>) {
    let owner_of = |graph_nodes: &Vec<NetworkNode>, j: u32| -> u32 {
        graph_nodes
            .iter()
            .position(|n| n.start_edge_index <= j && j < n.last_edge_index)
            .unwrap() as u32
    };
    for u in 0..next.node_count() as u32 {
        let here = *next.data.node_data(NodeId(u));
        let mut records = next.out_edges(NodeId(u));
        let forward = records.len();
        records.extend(next.in_edges(NodeId(u)));
        for (at, (id, record)) in records.into_iter().enumerate() {
            let there = *next.data.node_data(record.target());
            let (from, to) = if at < forward { (here, there) } else { (there, here) };
            let chain = next.data.edge_data(id).duplicate().into_vec();
            assert!(!chain.is_empty());
            let mut at_node = from;
            let mut total = 0u64;
            for j in chain {
                let step = prev.edge(EdgeId(j));
                assert_eq!(owner_of(prev.nodes(), j), at_node.0);
                assert_ne!(step.direction(), EdgeDirection::Backward);
                total += step.weight() as u64;
                at_node = step.target();
            }
            assert_eq!(at_node, to);
            assert_eq!(total, record.weight() as u64);
        }
    }
}

#[test]
fn triangle_level() {
    // 0 -> 1; 10, 1 -> 2; 10, 0 -> 2; 5
    let network = network_of(0, 2, &[(0, 1, 10), (1, 2, 10), (0, 2, 5)]);
    let reduced = phase_1(2, &network);
    // with neighbourhoods of two nodes only the edge from 1 to 2 leaves
    // the neighbourhood of its target behind
    assert_eq!(edge_list(&reduced), vec![(1, 2, 10, vec![2])]);
    let one = ContractionFactor::new(1, 1).unwrap();
    let core = phase_2(reduced, one);
    assert_eq!(core.edge_count(), 0);
    assert_eq!(calculate_layer(2, &network, one).err(), Some(LayerError::Empty));
}

#[test]
fn layer_rejects_bad_input() {
    let one = ContractionFactor::new(1, 1).unwrap();
    let network = network_of(0, 2, &[(0, 1, 10), (1, 2, 10), (0, 2, 5)]);
    assert_eq!(calculate_layer(1, &network, one).err(), Some(LayerError::InvalidInput));
    assert_eq!(calculate_layer(0, &network, one).err(), Some(LayerError::InvalidInput));
    let nodes = vec![NetworkNode::new(0, 1)];
    let edges = vec![NetworkEdge::new(0, NodeId(3), 1, EdgeDirection::Forward)];
    let broken = DirectedNetworkGraph::new(nodes, edges, ());
    assert_eq!(calculate_layer(2, &broken, one).err(), Some(LayerError::InvalidInput));
    let nodes = vec![NetworkNode::new(0, 1), NetworkNode::new(1, 1)];
    let edges = vec![NetworkEdge::new(0, NodeId(1), 1, EdgeDirection::Forward)];
    let unanswered = DirectedNetworkGraph::new(nodes, edges, IntermediateData::default());
    assert_eq!(calculate_layer(2, &unanswered, one).err(), Some(LayerError::InvalidInput));
}

#[test]
fn core_is_written_with_its_provenance() {
    let mut core = IntermediateNetwork::new();
    let edge = |s: u32, t: u32, w: u64, chain: Vec<u32>| {
        IntermediateEdge::new(
            NodeId(s),
            NodeId(t),
            w,
            ShortcutState::Shortcut(chain.clone()),
            ShortcutState::Shortcut(chain.into_iter().map(|x| x as usize + 50).collect()),
            EdgeDirection::Forward,
        )
    };
    core.add_edge(edge(9, 4, 7, vec![1, 2]));
    core.add_edge(edge(4, 9, 3, vec![5]));
    core.add_edge(edge(4, 6, 2, vec![8, 9, 10]));
    let graph = to_directed_graph(&core).unwrap();
    assert!(graph.is_valid());
    // nodes are numbered as their edges are read: 4, 9, 6
    assert_eq!(graph.node_count(), 3);
    assert_eq!(*graph.data.node_data(NodeId(0)), NodeId(4));
    assert_eq!(*graph.data.node_data(NodeId(1)), NodeId(9));
    assert_eq!(*graph.data.node_data(NodeId(2)), NodeId(6));
    assert_eq!(graph.edge_count(), 6);
    let out: Vec<(u32, u32, Vec<u32>, Vec<usize>)> = graph
        .out_edges(NodeId(0))
        .into_iter()
        .map(|(id, e)| {
            (
                e.target().0,
                e.weight(),
                graph.data.edge_data(id).duplicate().into_vec(),
                graph.data.edge_road_id(id).into_vec(),
            )
        })
        .collect();
    assert_eq!(
        out,
        vec![(1, 3, vec![5], vec![55]), (2, 2, vec![8, 9, 10], vec![58, 59, 60])]
    );
    let into: Vec<(u32, u32)> = graph
        .in_edges(NodeId(0))
        .into_iter()
        .map(|(_, e)| (e.target().0, e.weight()))
        .collect();
    assert_eq!(into, vec![(1, 7)]);
}

#[test]
fn core_with_a_weight_that_does_not_fit_is_not_written() {
    let mut core = IntermediateNetwork::new();
    core.add_edge(IntermediateEdge::new(
        NodeId(0),
        NodeId(1),
        1 << 32,
        ShortcutState::Single(0),
        ShortcutState::Single(0),
        EdgeDirection::Forward,
    ));
    assert_eq!(to_directed_graph(&core).err(), Some(GraphError::InvalidInput));
    let mut empty_weight = IntermediateNetwork::new();
    empty_weight.add_edge(IntermediateEdge::new(
        NodeId(0),
        NodeId(1),
        0,
        ShortcutState::Single(0),
        ShortcutState::Single(0),
        EdgeDirection::Forward,
    ));
    assert_eq!(to_directed_graph(&empty_weight).err(), Some(GraphError::InvalidInput));
}

#[test]
fn levels_of_a_small_grid_expand_to_walks_of_the_same_weight() {
    let base = grid(12);
    let two = ContractionFactor::new(2, 1).unwrap();
    let first = calculate_layer(4, &base, two).unwrap();
    assert!(first.is_valid());
    check_expansion(&base, &first);
    match calculate_layer(4, &first, two) {
        Ok(second) => {
            check_expansion(&first, &second);
            assert!(second.node_count() <= first.node_count());
        }
        Err(e) => assert_eq!(e, LayerError::Empty),
    }
}

#[test]
fn two_builds_give_the_same_level() {
    let base = grid(10);
    let c = ContractionFactor::new(3, 2).unwrap();
    let a = calculate_layer(5, &base, c);
    let b = calculate_layer(5, &base, c);
    assert_eq!(a, b);
    assert!(a.is_ok());
}

#[test]
fn grid_hierarchy_shrinks_until_it_is_empty() {
    let mut level_nodes = Vec::new();
    let mut level_edges = Vec::new();
    let base = grid(16);
    level_nodes.push(base.node_count());
    level_edges.push(base.edge_count());
    let c = ContractionFactor::new(2, 1).unwrap();
    let mut current = match calculate_layer(30, &base, c) {
        Ok(next) => Some(next),
        Err(e) => {
            assert_eq!(e, LayerError::Empty);
            None
        }
    };
    let mut rounds = 0;
    while let Some(graph) = current {
        level_nodes.push(graph.node_count());
        level_edges.push(graph.edge_count());
        rounds += 1;
        assert!(rounds < 64);
        current = match calculate_layer(30, &graph, c) {
            Ok(next) => Some(next),
            Err(e) => {
                assert_eq!(e, LayerError::Empty);
                None
            }
        };
    }
    assert_eq!(level_nodes, vec![256, 136, 96, 12]);
    assert_eq!(level_edges, vec![1920, 1908, 1268, 144]);
    for pair in level_nodes.windows(2) {
        assert!(pair[1] < pair[0]);
    }
    for pair in level_edges.windows(2) {
        assert!(pair[1] < pair[0]);
    }
}

#[test]
fn records_are_told_from_their_sources() {
    let network = network_of(0, 2, &[(0, 1, 10), (1, 2, 10), (0, 2, 5)]);
    for u in 0..3u32 {
        let leaving: Vec<u32> = network.out_edges(NodeId(u)).into_iter().map(|(id, _)| id.0).collect();
        for j in 0..network.edge_count() as u32 {
            assert_eq!(is_out_edge(&network, NodeId(u), EdgeId(j)), leaving.contains(&j));
        }
    }
    assert!(!is_out_edge(&network, NodeId(3), EdgeId(0)));
    assert!(!is_out_edge(&network, NodeId(0), EdgeId(6)));
}

#[test]
fn retained_records_become_single_edges() {
    let network = network_of(0, 2, &[(0, 1, 10), (1, 2, 10), (0, 2, 5)]);
    let first = network.out_edges(NodeId(0));
    let pairs: Vec<(NodeId, EdgeId)> = first.iter().map(|(id, _)| (NodeId(0), *id)).collect();
    let net = intermediate_from_edges(&network, &pairs).ok().unwrap();
    let mut expected = Vec::new();
    for (id, record) in first {
        expected.push((0u32, record.target().0, record.weight() as u64, vec![id.0]));
    }
    expected.sort();
    assert_eq!(edge_list(&net), expected);
    assert_eq!(net.edge_count(), 2);
    assert!(!net.contains_node(NodeId(3)));
}

#[test]
fn a_pair_that_names_no_record_is_inconsistent() {
    let network = network_of(0, 2, &[(0, 1, 10), (1, 2, 10), (0, 2, 5)]);
    let entering = network.in_edges(NodeId(2));
    assert!(!entering.is_empty());
    let wrong = vec![(NodeId(2), entering[0].0)];
    assert_eq!(intermediate_from_edges(&network, &wrong).err(), Some(LayerError::Inconsistent));
    let beyond = vec![(NodeId(0), EdgeId(60))];
    assert_eq!(intermediate_from_edges(&network, &beyond).err(), Some(LayerError::Inconsistent));
}

#[test]
fn the_lighter_of_two_edges_between_the_same_nodes_stays() {
    let mut builder = DirectedNetworkBuilder::<usize, DefaultEdgeBuilder>::new();
    for x in 0..3usize {
        builder.add_node(x);
    }
    builder.add_edge(DefaultEdgeBuilder::forward(NodeId(0), NodeId(1), 0, 10));
    builder.add_edge(DefaultEdgeBuilder::forward(NodeId(0), NodeId(2), 1, 5));
    builder.add_edge(DefaultEdgeBuilder::both(NodeId(2), NodeId(0), 2, 3));
    let network = builder.build::<()>().unwrap();
    let leaving = network.out_edges(NodeId(0));
    let to_two: Vec<(EdgeId, NetworkEdge)> =
        leaving.iter().filter(|(_, e)| e.target() == NodeId(2)).cloned().collect();
    assert_eq!(to_two.len(), 2);
    let light = to_two.iter().find(|(_, e)| e.weight() == 3).unwrap().0;
    let mut pairs: Vec<(NodeId, EdgeId)> = leaving.iter().map(|(id, _)| (NodeId(0), *id)).collect();
    for _ in 0..2 {
        let mut net = IntermediateNetwork::new();
        assert!(keep_edges(&mut net, &network, &pairs));
        let kept = net.edge(NodeId(0), NodeId(2)).unwrap();
        assert_eq!(kept.weight(), 3);
        assert_eq!(kept.data().into_vec(), vec![light.0]);
        assert_eq!(net.edge(NodeId(0), NodeId(1)).unwrap().weight(), 10);
        assert_eq!(net.edge_count(), 2);
        pairs.reverse();
    }
    let mut net = IntermediateNetwork::new();
    assert!(!keep_edges(&mut net, &network, &vec![(NodeId(1), light)]));
}

#[test]
fn a_level_goes_by_its_core() {
    // no edge: the level is empty
    assert_eq!(write_level(&IntermediateNetwork::new()).err(), Some(LayerError::Empty));

    // a weight that does not fit a record: the core cannot be written
    let mut heavy = IntermediateNetwork::new();
    heavy.add_edge(IntermediateEdge::new(
        NodeId(0),
        NodeId(1),
        u32::MAX as u64 + 1,
        ShortcutState::Shortcut(vec![0, 1]),
        ShortcutState::Shortcut(vec![10, 11]),
        EdgeDirection::Forward,
    ));
    assert_eq!(write_level(&heavy).err(), Some(LayerError::Inconsistent));

    // else the graph of the core, two records for its one edge
    let mut light = IntermediateNetwork::new();
    light.add_edge(IntermediateEdge::new(
        NodeId(4),
        NodeId(9),
        7,
        ShortcutState::Shortcut(vec![2, 3]),
        ShortcutState::Shortcut(vec![12, 13]),
        EdgeDirection::Forward,
    ));
    let graph = write_level(&light).ok().unwrap();
    assert_eq!(graph.node_count(), 2);
    assert_eq!(graph.edge_count(), 2);
    let leaving = graph.out_edges(NodeId(0));
    assert_eq!(leaving.len(), 1);
    assert_eq!(leaving[0].1.weight(), 7);
    assert_eq!(*graph.node_data(NodeId(0)), NodeId(4));
    assert_eq!(*graph.node_data(leaving[0].1.target()), NodeId(9));
    assert_eq!(graph.edge_data(leaving[0].0).to_vec(), vec![2, 3]);
    assert_eq!(graph.edge_provenance(leaving[0].0).into_vec(), vec![12, 13]);
}

#[test]
fn a_single_edge_leaves_an_empty_level() {
    let network = network_of(0, 1, &[(0, 1, 1)]);
    let c = ContractionFactor::new(1, 1).unwrap();
    assert_eq!(calculate_layer(2, &network, c).err(), Some(LayerError::Empty));
    assert_eq!(network.node_count(), 2);
    assert_eq!(network.edge_count(), 2);
}

#[test]
fn with_small_neighbourhoods_the_levels_stop_shrinking() {
    let base = grid(12);
    let c = ContractionFactor::new(2, 1).unwrap();
    let mut sizes = vec![(base.node_count(), base.edge_count())];
    let mut current = calculate_layer(4, &base, c).ok();
    while let Some(graph) = current {
        sizes.push((graph.node_count(), graph.edge_count()));
        if sizes.len() == 6 {
            break;
        }
        current = calculate_layer(4, &graph, c).ok();
    }
    // nodes and records: from the third level on nothing changes any more
    assert_eq!(
        sizes,
        vec![(144, 1056), (72, 996), (72, 968), (72, 960), (72, 960), (72, 960)]
    );
    for pair in sizes.windows(2) {
        assert!(pair[1].0 <= pair[0].0);
    }
}

#[test]
fn the_reduction_makes_one_graph() {
    let base = grid(8);
    let a = phase_1(4, &base);
    let b = phase_1(4, &base);
    assert_eq!(a.nodes(), b.nodes());
    assert!(a.edge_count() > 0);
    for v in a.nodes() {
        assert_eq!(a.out_targets(v), b.out_targets(v));
        assert_eq!(a.in_sources(v), b.in_sources(v));
        for t in a.out_targets(v) {
            assert_eq!(a.edge(v, t), b.edge(v, t));
        }
    }
}
