use meritrank::data::NodeKind;
use meritrank::node_registry::{AugGraphError, NodeRegistry};

#[test]
fn aug_graph_node_registry() {
    let mut registry = NodeRegistry::new();

    let user_id = registry.register("Alice".to_string(), NodeKind::User);
    assert_eq!(user_id, 0);

    let comment_id = registry.register_with_owner("Comment1".to_string(), NodeKind::Comment, user_id);
    assert_eq!(comment_id, 1);

    // Test get_by_id
    let info = registry.get_by_id(0).unwrap();
    assert_eq!(info.name, "Alice");
    assert_eq!(info.kind, NodeKind::User);
    assert_eq!(info.owner, None);

    // Test get_by_name
    let info = registry.get_by_name("Comment1").unwrap();
    assert_eq!(info.id, 1);
    assert_eq!(info.kind, NodeKind::Comment);
    assert_eq!(info.owner, Some(user_id));

    // Test registering an existing name
    let existing_id = registry.register("Alice".to_string(), NodeKind::User);
    assert_eq!(existing_id, 0);

    // Test non-existent entries
    assert_eq!(registry.get_by_id(2), None);
    assert_eq!(registry.get_by_name("Bob"), None);
}

#[test]
fn mod_node_registry() {
    let mut registry = NodeRegistry::new();

    let user_id = registry.register("Alice".to_string(), NodeKind::User);
    assert_eq!(user_id, 0);

    let comment_id = registry.register_with_owner("Comment1".to_string(), NodeKind::Comment, user_id);
    assert_eq!(comment_id, 1);

    // Test get_by_id
    let info = registry.get_by_id(0).unwrap();
    assert_eq!(info.name, "Alice");
    assert_eq!(info.kind, NodeKind::User);
    assert_eq!(info.owner, None);

    // Test get_by_name
    let info = registry.get_by_name("Comment1").unwrap();
    assert_eq!(info.id, 1);
    assert_eq!(info.kind, NodeKind::Comment);
    assert_eq!(info.owner, Some(user_id));

    // Test registering an existing name
    let existing_id = registry.register("Alice".to_string(), NodeKind::User);
    assert_eq!(existing_id, 0);

    // Test non-existent entries
    assert_eq!(registry.get_by_id(2), None);
    assert_eq!(registry.get_by_name("Bob"), None);

    // Test nodes_by_kind (index by kind)
    assert_eq!(registry.nodes_by_kind(NodeKind::User), &[0]);
    assert_eq!(registry.nodes_by_kind(NodeKind::Comment), &[1]);
    assert!(registry.nodes_by_kind(NodeKind::Beacon).is_empty());
}

#[test]
fn registering_a_known_name_keeps_its_kind_and_owner() {
    let mut registry = NodeRegistry::new();
    let a = registry.register_with_owner("O1".to_string(), NodeKind::Opinion, 7);
    let again = registry.register("O1".to_string(), NodeKind::User);
    assert_eq!(a, again);
    assert_eq!(registry.next_id, 1);
    let info = registry.get_by_name("O1").unwrap();
    assert_eq!(info.kind, NodeKind::Opinion);
    assert_eq!(info.owner, Some(7));
    assert_eq!(registry.id_to_info.len(), 1);
}

#[test]
fn an_object_edge_to_a_user_makes_the_user_its_owner() {
    let mut registry = NodeRegistry::new();
    let (o1, u1) = registry.reg_owner_and_get_ids("O1".to_string(), "U1".to_string()).unwrap();
    // the user is registered first
    assert_eq!((o1, u1), (1, 0));
    let o = registry.get_by_name("O1").unwrap();
    assert_eq!(o.kind, NodeKind::Opinion);
    assert_eq!(o.owner, Some(u1));
    let u = registry.get_by_name("U1").unwrap();
    assert_eq!(u.kind, NodeKind::User);
    assert_eq!(u.owner, None);
    // a later edge keeps the first owner
    let (o1_again, u2) = registry.reg_owner_and_get_ids("O1".to_string(), "U2".to_string()).unwrap();
    assert_eq!(o1_again, o1);
    assert_eq!(u2, 2);
    assert_eq!(registry.get_by_name("O1").unwrap().owner, Some(u1));
    assert_eq!(registry.get_by_name("U2").unwrap().owner, None);
}

#[test]
fn edge_registration_by_kinds() {
    let mut registry = NodeRegistry::new();
    assert_eq!(registry.reg_owner_and_get_ids("U1".to_string(), "U2".to_string()).unwrap(), (0, 1));
    assert_eq!(registry.reg_owner_and_get_ids("U1".to_string(), "B1".to_string()).unwrap(), (0, 2));
    assert_eq!(registry.get_by_id(2).unwrap().kind, NodeKind::Beacon);
    assert_eq!(registry.get_by_id(2).unwrap().owner, None);
    assert!(matches!(
        registry.reg_owner_and_get_ids("U1".to_string(), "U1".to_string()),
        Err(AugGraphError::SelfReference)
    ));
    assert!(matches!(
        registry.reg_owner_and_get_ids("B1".to_string(), "C1".to_string()),
        Err(AugGraphError::IncorrectNodeKinds(_, _))
    ));
    assert!(matches!(
        registry.reg_owner_and_get_ids("x".to_string(), "U1".to_string()),
        Err(AugGraphError::IncorrectNodeKinds(_, _))
    ));
    assert_eq!(registry.next_id, 3);
}
