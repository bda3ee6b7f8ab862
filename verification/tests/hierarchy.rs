use highway_hierarchy::builder::{DefaultEdgeBuilder, DirectedNetworkBuilder};
use highway_hierarchy::contraction::ContractionFactor;
use highway_hierarchy::direction::EdgeDirection;
use highway_hierarchy::graph::{DirectedNetworkGraph, NetworkEdge, NetworkNode};
use highway_hierarchy::hierarchy::{build_hierarchy, BuildConfiguration, HighwayHierarchy};
use highway_hierarchy::ids::{EdgeId, NodeId};
use highway_hierarchy::layer::{calculate_layer, LayerError};
use highway_hierarchy::node_data::NetworkData;

fn network_of(first: usize, last: usize, edges: &[(usize, usize, u64)]) -> DirectedNetworkGraph<()> {
    let mut builder = DirectedNetworkBuilder::<usize, DefaultEdgeBuilder>::new();
    for x in first..=last {
        builder.add_node(x);
    }
    for &(a, b, c) in edges {
        let source = builder.add_node(a);
        let target = builder.add_node(b);
        builder.add_edge(DefaultEdgeBuilder::forward(source, target, 0, c));
    }
    builder.build::<()>().unwrap()
}

fn grid(side: usize) -> DirectedNetworkGraph<()> {
    let mut edges = Vec::new();
    let weight = |a: usize, b: usize| 1 + ((a * 7 + b * 13) % 5) as u64;
    for y in 0..side {
        for x in 0..side {
            let here = y * side + x;
            if x + 1 < side {
                edges.push((here, here + 1, weight(here, here + 1)));
                edges.push((here + 1, here, weight(here, here + 1)));
            }
            if y + 1 < side {
                edges.push((here, here + side, weight(here, here + side)));
                edges.push((here + side, here, weight(here, here + side)));
            }
        }
    }
    network_of(0, side * side - 1, &edges)
}

fn config(size: u32, c: (u32, u32), levels: u8) -> BuildConfiguration {
    BuildConfiguration::new(size, ContractionFactor::new(c.0, c.1).unwrap(), levels).unwrap()
}

fn owner(graph_nodes: &Vec<NetworkNode>, j: u32) -> u32 {
    graph_nodes
        .iter()
        .position(|n| n.start_edge_index <= j && j < n.last_edge_index)
        .unwrap() as u32
}

#[test]
fn options_must_be_in_their_ranges() {
    let two = ContractionFactor::new(2, 1).unwrap();
    assert!(BuildConfiguration::new(1, two, 1).is_none());
    assert!(BuildConfiguration::new(2, two, 0).is_none());
    assert!(BuildConfiguration::new(2, ContractionFactor { numerator: 1, denominator: 2 }, 1).is_none());
    assert!(BuildConfiguration::new(2, ContractionFactor { numerator: 1, denominator: 0 }, 1).is_none());
    let ok = BuildConfiguration::new(30, two, 3).unwrap();
    assert_eq!(ok.neighborhood_size, 30);
    assert_eq!(ok.levels, 3);
    assert_eq!(ok.contraction_factor, two);
}

#[test]
fn build_stops_at_the_number_of_levels_or_at_an_empty_level() {
    let all = build_hierarchy(config(30, (2, 1), 10), grid(16)).unwrap();
    let sizes: Vec<(usize, usize)> =
        all.levels.iter().map(|g| (g.node_count(), g.edge_count())).collect();
    assert_eq!(sizes, vec![(136, 1908), (96, 1268), (12, 144)]);
    let two = build_hierarchy(config(30, (2, 1), 2), grid(16)).unwrap();
    assert_eq!(two.levels.len(), 2);
    assert_eq!(two.levels[0], all.levels[0]);
    assert_eq!(two.levels[1], all.levels[1]);
    assert_eq!(two.base, grid(16));
    // the first level of the triangle is empty already
    let triangle = network_of(0, 2, &[(0, 1, 10), (1, 2, 10), (0, 2, 5)]);
    let none = build_hierarchy(config(2, (1, 1), 3), triangle).unwrap();
    assert_eq!(none.levels.len(), 0);
}

#[test]
fn hierarchy_rejects_bad_input() {
    let nodes = vec![NetworkNode::new(0, 1)];
    let edges = vec![NetworkEdge::new(0, NodeId(3), 1, EdgeDirection::Forward)];
    let broken = DirectedNetworkGraph::new(nodes, edges, ());
    assert_eq!(
        build_hierarchy(config(2, (1, 1), 1), broken).err(),
        Some(LayerError::InvalidInput)
    );
    let out_of_range = BuildConfiguration {
        neighborhood_size: 1,
        contraction_factor: ContractionFactor::new(1, 1).unwrap(),
        levels: 1,
    };
    assert_eq!(
        build_hierarchy(out_of_range, grid(3)).err(),
        Some(LayerError::InvalidInput)
    );
}

#[test]
fn levels_agree_with_building_them_one_by_one() {
    let base = grid(14);
    let c = ContractionFactor::new(2, 1).unwrap();
    let built = build_hierarchy(config(30, (2, 1), 3), grid(14)).unwrap();
    let first = calculate_layer(30, &base, c).unwrap();
    assert_eq!(built.levels[0], first);
    let second = calculate_layer(30, &first, c).unwrap();
    assert_eq!(built.levels[1], second);
}

/// The node of the base graph for which node `u` of level `level` stands.
fn base_node(h: &HighwayHierarchy<()>, level: usize, u: NodeId) -> NodeId {
    let mut node = u;
    let mut at = level;
    while at > 0 {
        node = *h.levels[at - 1].data.node_data(node);
        at -= 1;
    }
    node
}

#[test]
fn every_edge_of_every_level_expands_to_a_walk_in_the_base_graph() {
    let h = build_hierarchy(config(30, (2, 1), 10), grid(16)).unwrap();
    assert_eq!(h.levels.len(), 3);
    for level in 1..=h.levels.len() {
        let graph = &h.levels[level - 1];
        let mut longest = 0;
        for j in 0..graph.edge_count() as u32 {
            assert!(h.knows_record(level, EdgeId(j)));
            let record = graph.edge(EdgeId(j));
            let u = NodeId(owner(graph.nodes(), j));
            let here = base_node(&h, level, u);
            let there = base_node(&h, level, record.target());
            let (from, to) = match record.direction() {
                EdgeDirection::Forward => (here, there),
                EdgeDirection::Backward => (there, here),
                EdgeDirection::Both => panic!("no level holds a bidirectional record"),
            };
            let walk = h.expand_edge(level, EdgeId(j));
            longest = longest.max(walk.len());
            let mut at_node = from;
            let mut total = 0u64;
            for step in walk {
                let edge = h.base.edge(step);
                assert_eq!(owner(h.base.nodes(), step.0), at_node.0);
                assert_eq!(edge.direction(), EdgeDirection::Forward);
                total += edge.weight() as u64;
                at_node = edge.target();
            }
            assert_eq!(at_node, to);
            assert_eq!(total, record.weight() as u64);
        }
        assert!(longest >= level);
    }
    assert!(!h.knows_record(4, EdgeId(0)));
    assert!(!h.knows_record(1, EdgeId(1_000_000)));
    assert_eq!(h.expand_edge(0, EdgeId(17)), vec![EdgeId(17)]);
    // at the base, the edge records of the base graph and no others
    let records = h.base.edge_count() as u32;
    assert!(h.knows_record(0, EdgeId(17)));
    assert!(h.knows_record(0, EdgeId(records - 1)));
    assert!(!h.knows_record(0, EdgeId(records)));
    assert!(!h.knows_record(0, EdgeId(u32::MAX)));
}
