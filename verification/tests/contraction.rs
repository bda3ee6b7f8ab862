use highway_hierarchy::contraction::{
    core_network_with_patch, test_bypass, ContractionFactor, HashNodeQueue,
};
use highway_hierarchy::direction::EdgeDirection;
use highway_hierarchy::ids::NodeId;
use highway_hierarchy::intermediate::{
    collect_shortcut_data_edges, make_shortcut, IntermediateEdge, IntermediateNetwork,
    IntermediateNode,
};
use highway_hierarchy::shortcut::ShortcutState;

fn edge(source: u32, target: u32, weight: u64, id: u32) -> IntermediateEdge {
    IntermediateEdge::new(
        NodeId(source),
        NodeId(target),
        weight,
        ShortcutState::Single(id),
        ShortcutState::Single(100 + id as usize),
        EdgeDirection::Forward,
    )
}

fn network_of(edges: &[(u32, u32, u64)]) -> IntermediateNetwork {
    let mut network = IntermediateNetwork::new();
    for (id, &(s, t, w)) in edges.iter().enumerate() {
        network.add_edge(edge(s, t, w, id as u32));
    }
    network
}

fn edge_list(network: &IntermediateNetwork) -> Vec<(u32, u32, u64, Vec<u32>)> {
    let mut out = Vec::new();
    for u in network.nodes() {
        for t in network.out_targets(u) {
            let e = network.edge(u, t).unwrap();
            out.push((u.0, t.0, e.weight(), e.data().into_vec()));
        }
    }
    out.sort();
    out
}

#[test]
fn bypass_makes_a_shortcut_with_the_chain_of_both_edges() {
    let mut network = network_of(&[(0, 1, 3), (1, 2, 4)]);
    let touched = network.bypass(NodeId(1));
    assert_eq!(touched, vec![NodeId(0), NodeId(2)]);
    assert!(!network.contains_node(NodeId(1)));
    assert_eq!(edge_list(&network), vec![(0, 2, 7, vec![0, 1])]);
    let shortcut = network.edge(NodeId(0), NodeId(2)).unwrap();
    assert_eq!(shortcut.road_id().into_vec(), vec![100, 101]);
    assert_eq!(shortcut.direction(), EdgeDirection::Forward);
    assert_eq!(shortcut.source(), NodeId(0));
    assert_eq!(shortcut.target(), NodeId(2));
}

#[test]
fn contraction_of_a_path_leaves_nothing_to_bypass() {
    let network = network_of(&[(0, 1, 3), (1, 2, 4)]);
    let c = ContractionFactor::new(1, 1).unwrap();
    let core = core_network_with_patch(network, c);
    // every node of a path has at most one edge on either side and is
    // bypassed in its turn
    assert_eq!(core.nodes(), vec![]);
    assert_eq!(core.edge_count(), 0);
}

#[test]
fn bypass_of_a_node_without_outgoing_edges_only_removes_it() {
    let mut network = network_of(&[(0, 2, 1), (1, 2, 1), (0, 1, 10)]);
    let touched = network.bypass(NodeId(2));
    assert_eq!(touched, vec![NodeId(0), NodeId(1)]);
    assert!(!network.contains_node(NodeId(2)));
    assert_eq!(edge_list(&network), vec![(0, 1, 10, vec![2])]);
}

#[test]
fn bypass_never_makes_a_loop() {
    let mut network = network_of(&[(0, 1, 1), (1, 0, 1)]);
    let touched = network.bypass(NodeId(1));
    assert_eq!(touched, vec![NodeId(0), NodeId(0)]);
    assert_eq!(network.edge_count(), 0);
    assert!(network.edge(NodeId(0), NodeId(0)).is_none());
    assert!(network.contains_node(NodeId(0)));
}

#[test]
fn shorter_edge_survives_a_shortcut() {
    // the triangle: the shortcut through 1 weighs 20 and loses against
    // the edge of weight 5
    let mut network = network_of(&[(0, 1, 10), (1, 2, 10), (0, 2, 5)]);
    network.bypass(NodeId(1));
    assert_eq!(edge_list(&network), vec![(0, 2, 5, vec![2])]);
    // a lighter shortcut wins
    let mut network = network_of(&[(0, 1, 1), (1, 2, 1), (0, 2, 5)]);
    network.bypass(NodeId(1));
    assert_eq!(edge_list(&network), vec![(0, 2, 2, vec![0, 1])]);
    // with equal weights the old edge stays
    let mut network = network_of(&[(0, 1, 2), (1, 2, 3), (0, 2, 5)]);
    network.bypass(NodeId(1));
    assert_eq!(edge_list(&network), vec![(0, 2, 5, vec![2])]);
}

#[test]
fn bypass_joins_every_way_in_with_every_way_out() {
    let mut network = network_of(&[(0, 4, 1), (1, 4, 2), (4, 2, 10), (4, 3, 20), (4, 0, 7)]);
    assert_eq!(network.in_degree(NodeId(4)), 2);
    assert_eq!(network.out_degree(NodeId(4)), 3);
    assert_eq!(network.in_sources(NodeId(4)), vec![NodeId(0), NodeId(1)]);
    let touched = network.bypass(NodeId(4));
    assert_eq!(
        touched,
        vec![NodeId(0), NodeId(1), NodeId(2), NodeId(3), NodeId(0)]
    );
    assert_eq!(
        edge_list(&network),
        vec![
            (0, 2, 11, vec![0, 2]),
            (0, 3, 21, vec![0, 3]),
            (1, 0, 9, vec![1, 4]),
            (1, 2, 12, vec![1, 2]),
            (1, 3, 22, vec![1, 3]),
        ]
    );
}

#[test]
fn bypass_of_an_unknown_node_changes_nothing() {
    let mut network = network_of(&[(0, 1, 3)]);
    assert_eq!(network.bypass(NodeId(9)), vec![]);
    assert_eq!(edge_list(&network), vec![(0, 1, 3, vec![0])]);
}

#[test]
fn shortcut_weight_is_held_at_the_largest_weight() {
    let a = edge(0, 1, u64::MAX - 1, 0);
    let b = edge(1, 2, 5, 1);
    let s = make_shortcut(&a, &b);
    assert_eq!(s.weight(), u64::MAX);
    let (ids, roads) = collect_shortcut_data_edges(&a, &b);
    assert_eq!(ids, vec![0, 1]);
    assert_eq!(roads, vec![100, 101]);
    let long = make_shortcut(&s, &b);
    assert_eq!(long.data().into_vec(), vec![0, 1, 1]);
}

#[test]
fn add_edge_replaces_and_merge_edge_keeps_the_lighter() {
    let mut network = IntermediateNetwork::new();
    network.add_edge(edge(0, 1, 5, 0));
    network.add_edge(edge(0, 1, 9, 1));
    assert_eq!(edge_list(&network), vec![(0, 1, 9, vec![1])]);
    network.merge_edge(edge(0, 1, 12, 2));
    assert_eq!(edge_list(&network), vec![(0, 1, 9, vec![1])]);
    network.merge_edge(edge(0, 1, 9, 3));
    assert_eq!(edge_list(&network), vec![(0, 1, 9, vec![1])]);
    network.merge_edge(edge(0, 1, 2, 4));
    assert_eq!(edge_list(&network), vec![(0, 1, 2, vec![4])]);
    network.merge_edge(edge(1, 0, 3, 5));
    assert_eq!(network.edge_count(), 2);
}

#[test]
fn remove_node_takes_its_edges_along() {
    let mut network = network_of(&[(0, 1, 3), (1, 2, 4), (2, 0, 5), (2, 1, 6)]);
    network.remove_node(NodeId(1));
    assert_eq!(network.nodes(), vec![NodeId(0), NodeId(2)]);
    assert_eq!(edge_list(&network), vec![(2, 0, 5, vec![2])]);
    assert_eq!(network.out_degree(NodeId(2)), 1);
    assert_eq!(network.in_degree(NodeId(2)), 0);
    network.remove_node(NodeId(7));
    assert_eq!(network.nodes(), vec![NodeId(0), NodeId(2)]);
}

#[test]
fn contraction_test_is_exact() {
    let one = ContractionFactor::new(1, 1).unwrap();
    let two = ContractionFactor::new(2, 1).unwrap();
    let three_halves = ContractionFactor::new(3, 2).unwrap();
    // 2 * 2 = 4 against 1 * 4, 2 * 4 and 1.5 * 4
    assert!(test_bypass(2, 2, one));
    assert!(test_bypass(2, 2, two));
    assert!(test_bypass(2, 2, three_halves));
    // 3 * 3 = 9 against 6, 12 and 9
    assert!(!test_bypass(3, 3, one));
    assert!(test_bypass(3, 3, two));
    assert!(test_bypass(3, 3, three_halves));
    // 4 * 3 = 12 against 7, 14 and 10.5
    assert!(!test_bypass(4, 3, one));
    assert!(test_bypass(4, 3, two));
    assert!(!test_bypass(4, 3, three_halves));
    assert!(test_bypass(0, 0, one));
    assert!(test_bypass(0, 5, one));
}

#[test]
fn contraction_factor_must_be_a_number_of_at_least_one() {
    assert!(ContractionFactor::new(1, 0).is_none());
    assert!(ContractionFactor::new(1, 2).is_none());
    assert!(ContractionFactor::new(0, 0).is_none());
    let c = ContractionFactor::new(5, 2).unwrap();
    assert_eq!(c.numerator, 5);
    assert_eq!(c.denominator, 2);
}

fn dense_network() -> IntermediateNetwork {
    // every node of 0..6 joined with every other, both ways, and a tail
    let mut edges = Vec::new();
    for a in 0..6u32 {
        for b in 0..6u32 {
            if a != b {
                edges.push((a, b, 1 + (a * 7 + b * 3) as u64 % 5));
            }
        }
    }
    edges.push((6, 0, 2));
    edges.push((7, 6, 2));
    edges.push((0, 8, 3));
    network_of(&edges)
}

#[test]
fn second_contraction_changes_nothing() {
    let c = ContractionFactor::new(1, 1).unwrap();
    let core = core_network_with_patch(dense_network(), c);
    let nodes = core.nodes();
    let edges = edge_list(&core);
    // the tail is gone, the dense part stays
    assert_eq!(
        nodes,
        vec![NodeId(0), NodeId(1), NodeId(2), NodeId(3), NodeId(4), NodeId(5)]
    );
    assert_eq!(edges.len(), 30);
    for v in &nodes {
        assert!(!test_bypass(core.out_degree(*v), core.in_degree(*v), c));
    }
    let again = core_network_with_patch(core, c);
    assert_eq!(again.nodes(), nodes);
    assert_eq!(edge_list(&again), edges);
}

#[test]
fn larger_factor_contracts_more() {
    let loose = ContractionFactor::new(3, 1).unwrap();
    let core = core_network_with_patch(dense_network(), loose);
    // 5 * 5 = 25 against 3 * 10: everything goes
    assert_eq!(core.nodes(), vec![]);
    let again = core_network_with_patch(core, loose);
    assert_eq!(again.edge_count(), 0);
}

#[test]
fn queue_holds_no_node_twice() {
    let mut queue = HashNodeQueue::from_vec(&vec![NodeId(3), NodeId(1), NodeId(3), NodeId(2)]);
    assert_eq!(queue.len(), 3);
    assert!(queue.contains(&NodeId(1)));
    assert!(!queue.contains(&NodeId(5)));
    queue.push_back(NodeId(1));
    queue.push_back(NodeId(5));
    assert_eq!(queue.len(), 4);
    assert_eq!(queue.pop_front(), Some(NodeId(3)));
    assert!(!queue.contains(&NodeId(3)));
    queue.push_back(NodeId(3));
    assert_eq!(queue.pop_front(), Some(NodeId(1)));
    assert_eq!(queue.pop_front(), Some(NodeId(2)));
    assert_eq!(queue.pop_front(), Some(NodeId(5)));
    assert_eq!(queue.pop_front(), Some(NodeId(3)));
    assert_eq!(queue.pop_front(), None);
    let same = HashNodeQueue::from_iter(vec![NodeId(4), NodeId(4)]);
    assert_eq!(same.len(), 1);
    assert_eq!(HashNodeQueue::new().len(), 0);
}

#[test]
fn intermediate_node_is_labelled_by_the_node_below() {
    let node = IntermediateNode(NodeId(12));
    assert_eq!(node.data(), NodeId(12));
    assert_eq!(node.id(), 12);
}

#[test]
fn bypass_lists_new_neighbours_behind_the_old() {
    let mut network = network_of(&[(0, 2, 1), (1, 2, 1), (2, 3, 1), (2, 4, 1), (0, 5, 1), (6, 3, 1)]);
    assert_eq!(network.out_targets(NodeId(0)), vec![NodeId(2), NodeId(5)]);
    assert_eq!(network.in_sources(NodeId(3)), vec![NodeId(2), NodeId(6)]);
    let touched = network.bypass(NodeId(2));
    assert_eq!(touched, vec![NodeId(0), NodeId(1), NodeId(3), NodeId(4)]);
    // the shortcuts are proposed as 0-3, 0-4, 1-3, 1-4 and merged last first
    assert_eq!(network.out_targets(NodeId(0)), vec![NodeId(5), NodeId(4), NodeId(3)]);
    assert_eq!(network.out_targets(NodeId(1)), vec![NodeId(4), NodeId(3)]);
    assert_eq!(network.in_sources(NodeId(3)), vec![NodeId(6), NodeId(1), NodeId(0)]);
    assert_eq!(network.in_sources(NodeId(4)), vec![NodeId(1), NodeId(0)]);
    assert_eq!(network.out_targets(NodeId(2)), vec![]);
    assert_eq!(network.in_sources(NodeId(2)), vec![]);
    assert_eq!(network.out_targets(NodeId(6)), vec![NodeId(3)]);
}

/// The contraction, step by step: the nodes wait first in, first out.
fn contract_by_hand(mut network: IntermediateNetwork, c: ContractionFactor) -> (IntermediateNetwork, Vec<u32>) {
    let mut queue: std::collections::VecDeque<NodeId> = network.nodes().into_iter().collect();
    let mut bypassed = Vec::new();
    while let Some(v) = queue.pop_front() {
        if !network.contains_node(v) {
            continue;
        }
        if test_bypass(network.out_degree(v), network.in_degree(v), c) {
            bypassed.push(v.0);
            for u in network.bypass(v) {
                if !queue.contains(&u) {
                    queue.push_back(u);
                }
            }
        }
    }
    (network, bypassed)
}

fn shape(network: &IntermediateNetwork) -> Vec<(u32, Vec<NodeId>, Vec<NodeId>)> {
    network
        .nodes()
        .into_iter()
        .map(|v| (v.0, network.out_targets(v), network.in_sources(v)))
        .collect()
}

#[test]
fn contraction_takes_the_nodes_first_in_first_out() {
    for (numerator, denominator) in [(1u32, 1u32), (3, 2), (2, 1), (3, 1)] {
        let c = ContractionFactor::new(numerator, denominator).unwrap();
        let core = core_network_with_patch(dense_network(), c);
        let (expected, _) = contract_by_hand(dense_network(), c);
        assert_eq!(shape(&core), shape(&expected));
        assert_eq!(edge_list(&core), edge_list(&expected));
    }
    // on a path the ends go first, then the nodes that they touched
    let path = network_of(&[(0, 1, 1), (1, 2, 1), (2, 3, 1), (3, 4, 1)]);
    let (left, bypassed) = contract_by_hand(path, ContractionFactor::new(1, 1).unwrap());
    assert_eq!(bypassed, vec![0, 1, 2, 3, 4]);
    assert_eq!(left.nodes(), vec![]);
}
