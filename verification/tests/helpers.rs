use meritrank::aug_graph::get_object_owner;
use meritrank::data::NodeKind;
use meritrank::helpers::prioritize_ego_owned_items;
use meritrank::node_registry::{NodeInfo, NodeRegistry};

fn info(id: usize, name: &str, kind: NodeKind, owner: Option<usize>) -> NodeInfo {
    NodeInfo { id, name: name.to_string(), kind, owner }
}

#[test]
fn owned_items_come_first_in_order() {
    let ego = info(0, "U0", NodeKind::User, None);
    let mut items = vec![
        (info(1, "U1", NodeKind::User, None), 0.9, 1usize),
        (info(2, "B2", NodeKind::Comment, Some(0)), 0.8, 2usize),
        (info(3, "B3", NodeKind::Comment, Some(7)), 0.7, 3usize),
        (info(4, "B4", NodeKind::Comment, Some(0)), 0.6, 4usize),
        (info(5, "U5", NodeKind::User, None), 0.5, 5usize),
    ];
    prioritize_ego_owned_items(&mut items, &ego);
    let ids: Vec<usize> = items.iter().map(|x| x.0.id).collect();
    assert_eq!(ids, vec![2, 4, 3, 1, 5]);
    assert_eq!(items[0].1, 0.8);
    assert_eq!(items[1].2, 4);
}

#[test]
fn unowned_entries_rotate_as_owned_ones_move_forward() {
    let ego = info(0, "U0", NodeKind::User, None);
    let mut items = vec![
        (info(1, "U1", NodeKind::User, None), 5u32, 0u8),
        (info(2, "U2", NodeKind::User, None), 4u32, 0u8),
        (info(3, "B3", NodeKind::Beacon, Some(0)), 3u32, 0u8),
        (info(4, "B4", NodeKind::Beacon, Some(0)), 2u32, 0u8),
        (info(5, "U5", NodeKind::User, None), 1u32, 0u8),
        (info(6, "B6", NodeKind::Beacon, Some(0)), 0u32, 0u8),
    ];
    prioritize_ego_owned_items(&mut items, &ego);
    let ids: Vec<usize> = items.iter().map(|x| x.0.id).collect();
    assert_eq!(ids, vec![3, 4, 6, 2, 5, 1]);
}

#[test]
fn nothing_owned_leaves_order() {
    let ego = info(9, "U9", NodeKind::User, None);
    let mut items = vec![
        (info(1, "U1", NodeKind::User, None), 1i64, 0u8),
        (info(2, "B2", NodeKind::Comment, Some(1)), 2i64, 0u8),
    ];
    prioritize_ego_owned_items(&mut items, &ego);
    let ids: Vec<usize> = items.iter().map(|x| x.0.id).collect();
    assert_eq!(ids, vec![1, 2]);
    let mut empty: Vec<(NodeInfo, i64, u8)> = vec![];
    prioritize_ego_owned_items(&mut empty, &ego);
    assert!(empty.is_empty());
}

fn check_ownership_assigned_on_nonuser_to_user_edge() {
    let mut nodes = NodeRegistry::new();
    assert!(nodes.reg_owner_and_get_ids("O1".to_string(), "U1".to_string()).is_ok());

    let o1 = nodes.get_by_name("O1").unwrap().clone();
    let u1 = nodes.get_by_name("U1").unwrap().clone();
    assert_eq!(o1.kind, NodeKind::Opinion);
    assert_eq!(o1.owner, Some(u1.id));
    assert_eq!(u1.kind, NodeKind::User);
    assert_eq!(u1.owner, None);

    assert_eq!(get_object_owner(&nodes, o1.id, None), Some(u1.id));
    assert_eq!(get_object_owner(&nodes, u1.id, None), Some(u1.id));
}

fn check_ownership_stable_across_subsequent_edges() {
    let mut nodes = NodeRegistry::new();
    assert!(nodes.reg_owner_and_get_ids("O1".to_string(), "U1".to_string()).is_ok());
    assert!(nodes.reg_owner_and_get_ids("O1".to_string(), "U2".to_string()).is_ok());

    let o1 = nodes.get_by_name("O1").unwrap().clone();
    let u1 = nodes.get_by_name("U1").unwrap().clone();
    let u2 = nodes.get_by_name("U2").unwrap().clone();
    assert_eq!(o1.owner, Some(u1.id));
    assert_eq!(u2.owner, None);
}

#[test]
fn aug_graph_ownership_assigned_on_nonuser_to_user_edge() {
    check_ownership_assigned_on_nonuser_to_user_edge();
}

#[test]
fn edges_ownership_assigned_on_nonuser_to_user_edge() {
    check_ownership_assigned_on_nonuser_to_user_edge();
}

#[test]
fn aug_graph_ownership_stable_across_subsequent_edges() {
    check_ownership_stable_across_subsequent_edges();
}

#[test]
fn edges_ownership_stable_across_subsequent_edges() {
    check_ownership_stable_across_subsequent_edges();
}

#[test]
fn object_owner_without_recorded_owner() {
    let mut nodes = NodeRegistry::new();
    let u1 = nodes.register("U1".to_string(), NodeKind::User);
    let o2 = nodes.register("O2".to_string(), NodeKind::Opinion);
    let b3 = nodes.register("B3".to_string(), NodeKind::Comment);
    assert_eq!(get_object_owner(&nodes, o2, Some(u1)), Some(u1));
    assert_eq!(get_object_owner(&nodes, o2, None), None);
    assert_eq!(get_object_owner(&nodes, b3, Some(u1)), Some(b3));
    assert_eq!(get_object_owner(&nodes, 42, Some(u1)), Some(42));
}
