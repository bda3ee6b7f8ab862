use highway_hierarchy::ids::{EdgeId, JunctionId, NodeId, RoadId};
use highway_hierarchy::shortcut::ShortcutState;

#[test]
fn edge_from_usize_test() {
    let a: EdgeId = EdgeId::from(0usize);
    let b = EdgeId::from(1usize);
    assert_eq!(*a, 0);
    assert_eq!(*b, 1);
}

#[test]
fn shortcut_into() {
    let a = ShortcutState::Single(1);
    let b = ShortcutState::Shortcut(vec![1, 2, 3]);
    let c: Vec<i32> = a.into();
    let d: Vec<i32> = b.into();
    assert_eq!(c, vec![1]);
    assert_eq!(d, vec![1, 2, 3]);
}

#[test]
fn node_from_u32_test() {
    let a = NodeId::from(0u32);
    let b = NodeId::from(1u32);
    assert_eq!(*a, 0);
    assert_eq!(*b, 1);
}

#[test]
fn node_from_usize_keeps_low_bits() {
    let a = NodeId::from(7usize);
    assert_eq!(a, NodeId(7));
    assert_eq!(*a, 7);
}

#[test]
fn external_identifiers_as_indices() {
    assert_eq!(JunctionId(12).num(), 12usize);
    assert_eq!(RoadId(40).num(), 40usize);
    assert_eq!(JunctionId::from(5usize), JunctionId(5));
    assert_eq!(RoadId::from(6usize), RoadId(6));
}

#[test]
fn shortcut_copies_keep_the_chain() {
    let chain = ShortcutState::Shortcut(vec![4u32, 5, 6]);
    assert_eq!(chain.to_vec(), vec![4, 5, 6]);
    assert_eq!(chain.duplicate(), chain);
    let single = ShortcutState::Single(9u32);
    assert_eq!(single.to_vec(), vec![9]);
    assert_eq!(single.duplicate().into_vec(), vec![9]);
}
