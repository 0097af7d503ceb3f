use std::collections::HashMap;

use meritrank::errors::MeritRankError;
use meritrank::random_walk::RandomWalk;
use meritrank::walk_storage::{
    count_visits_from, decide_skip_invalidation, decide_skip_invalidation_on_edge_addition,
    decide_skip_invalidation_on_edge_deletion, EdgeId, WalkStorage,
};

#[test]
fn test_walk_storage_decide_skip_invalidation_on_edge_deletion() {
    let walk = RandomWalk::from_nodes(vec![1, 2, 3]);
    let edge: EdgeId = (2, 3);

    // Test invalidation without skipping
    let (may_skip, new_pos) = decide_skip_invalidation_on_edge_deletion(&walk, 0, edge).unwrap();
    assert!(!may_skip);
    assert_eq!(new_pos, 1);

    // Test invalidation with skipping
    let (may_skip, new_pos) = decide_skip_invalidation_on_edge_deletion(&walk, 1, edge).unwrap();
    assert!(!may_skip);
    assert_eq!(new_pos, 1);

    // Test invalidation at the end of the walk
    let (may_skip, new_pos) = decide_skip_invalidation_on_edge_deletion(&walk, 2, edge).unwrap();
    assert!(may_skip);
    assert_eq!(new_pos, 2);
}

#[test]
fn test_decide_skip_invalidation() {
    let walk = RandomWalk::from_nodes(vec![1, 2, 3]);
    let edge: EdgeId = (2, 3);

    let (may_skip, new_pos) = decide_skip_invalidation(&walk, 2, edge, None).unwrap();
    assert!(may_skip);
    assert_eq!(new_pos, 2);

    // the one visit of node 2 from position 1 on is kept
    let (may_skip, new_pos) = decide_skip_invalidation(&walk, 1, edge, Some(&[(false, false)])).unwrap();
    assert!(may_skip);
    assert_eq!(new_pos, 1);

    // the one visit of node 2 from position 0 on is recomputed
    let (may_skip, new_pos) = decide_skip_invalidation(&walk, 0, edge, Some(&[(true, true)])).unwrap();
    assert!(!may_skip);
    assert_eq!(new_pos, 1);
}

#[test]
fn test_decide_skip_invalidation_on_edge_addition() {
    let walk = RandomWalk::from_nodes(vec![1, 2, 1, 3]);
    let edge: EdgeId = (1, 2);

    let (may_skip, new_pos) = decide_skip_invalidation_on_edge_addition(
        &walk,
        0,
        edge,
        &[(false, false), (true, true)],
    )
    .unwrap();
    assert!(!may_skip);
    assert_eq!(new_pos, 2);

    let (may_skip, new_pos) =
        decide_skip_invalidation_on_edge_addition(&walk, 2, edge, &[(false, false)]).unwrap();
    assert!(may_skip);
    assert_eq!(new_pos, 2);

    let (may_skip, new_pos) =
        decide_skip_invalidation_on_edge_addition(&walk, 1, edge, &[(true, true)]).unwrap();
    assert_eq!(may_skip, false);
    assert_eq!(new_pos, 2);
}

#[test]
fn test_decide_skip_invalidation_on_edge_addition_negative_segment_negative_edge() {
    let mut walk = RandomWalk::from_nodes(vec![0, 1, 2, 3]);
    walk.negative_segment_start = Some(2);
    let edge: EdgeId = (2, 99);
    // the visit at 2 is in the negative segment: its negative-segment draw (never
    // true for a negative edge) decides, whatever the positive draw says
    let (may_skip, new_pos) =
        decide_skip_invalidation_on_edge_addition(&walk, 0, edge, &[(true, false)]).unwrap();
    assert!(may_skip);
    assert_eq!(new_pos, 2);
}

#[test]
fn test_decide_skip_invalidation_on_edge_addition_negative_segment_positive_edge() {
    let mut walk = RandomWalk::from_nodes(vec![0, 1, 2, 3]);
    walk.negative_segment_start = Some(2);
    let edge: EdgeId = (2, 99);
    // the negative-segment draw holds (probability 1), the positive one not
    let (may_skip, new_pos) =
        decide_skip_invalidation_on_edge_addition(&walk, 0, edge, &[(false, true)]).unwrap();
    assert!(!may_skip);
    assert_eq!(new_pos, 2);
}

#[test]
fn positive_part_visits_use_the_positive_draw() {
    let mut walk = RandomWalk::from_nodes(vec![0, 1, 2, 3, 2]);
    walk.negative_segment_start = Some(3);
    let edge: EdgeId = (2, 99);
    // the visit at 2 is before the negative segment, the one at 4 in it
    let (may_skip, new_pos) =
        decide_skip_invalidation_on_edge_addition(&walk, 0, edge, &[(true, false), (false, false)])
            .unwrap();
    assert!(!may_skip);
    assert_eq!(new_pos, 2);
    let (may_skip, new_pos) =
        decide_skip_invalidation_on_edge_addition(&walk, 0, edge, &[(false, true), (true, false)])
            .unwrap();
    assert!(may_skip);
    assert_eq!(new_pos, 4);
    let (may_skip, new_pos) =
        decide_skip_invalidation_on_edge_addition(&walk, 0, edge, &[(false, true), (false, true)])
            .unwrap();
    assert!(!may_skip);
    assert_eq!(new_pos, 4);
}

#[test]
fn decide_skip_rejects_position_past_the_walk() {
    let walk = RandomWalk::from_nodes(vec![1, 2, 3]);
    assert!(matches!(
        decide_skip_invalidation_on_edge_deletion(&walk, 3, (1, 2)),
        Err(MeritRankError::InternalFatalError(Some(_)))
    ));
    assert!(matches!(
        decide_skip_invalidation_on_edge_addition(&walk, 7, (1, 2), &[]),
        Err(MeritRankError::InternalFatalError(Some(_)))
    ));
    assert!(decide_skip_invalidation(&walk, 3, (1, 2), None).is_err());
}

#[test]
fn count_visits_from_counts_later_visits_only() {
    let walk = RandomWalk::from_nodes(vec![1, 2, 1, 3, 1]);
    assert_eq!(count_visits_from(&walk, 0, 1), 3);
    assert_eq!(count_visits_from(&walk, 1, 1), 2);
    assert_eq!(count_visits_from(&walk, 3, 1), 1);
    assert_eq!(count_visits_from(&walk, 5, 1), 0);
    assert_eq!(count_visits_from(&walk, 0, 7), 0);
}

fn storage_with_walk(nodes: Vec<usize>) -> (WalkStorage, usize) {
    let mut storage = WalkStorage::new();
    let id = storage.get_next_free_walkid();
    {
        let walk = storage.get_walk_mut(id).unwrap();
        for n in nodes.iter() {
            walk.push(*n, true);
        }
    }
    storage.update_walk_bookkeeping(id, 0);
    (storage, id)
}

#[test]
fn walk_ids_are_handed_out_in_order_and_reused() {
    let mut storage = WalkStorage::new();
    assert_eq!(storage.get_next_free_walkid(), 0);
    assert_eq!(storage.get_next_free_walkid(), 1);
    storage.get_walk_mut(0).unwrap().push(5, true);
    storage.update_walk_bookkeeping(0, 0);
    storage.drop_walks_from_node(5).unwrap();
    // the dropped walk's id comes back first, and the walk is empty
    assert_eq!(storage.get_next_free_walkid(), 0);
    assert!(storage.get_walk(0).unwrap().is_empty());
    assert_eq!(storage.get_next_free_walkid(), 2);
}

#[test]
fn bookkeeping_records_first_visits() {
    let (storage, id) = storage_with_walk(vec![1, 2, 1, 3]);
    let visits = storage.get_visits_through_node(1).unwrap();
    assert_eq!(visits.get(&id), Some(&0));
    assert_eq!(storage.get_visits_through_node(2).unwrap().get(&id), Some(&1));
    assert_eq!(storage.get_visits_through_node(3).unwrap().get(&id), Some(&3));
    assert!(storage.get_visits_through_node(0).unwrap().is_empty());
    assert!(storage.get_visits_through_node(4).is_none());
    assert!(storage.assert_visits_consistency().is_ok());
}

#[test]
fn split_removes_visits_of_the_cut_part_only() {
    let (mut storage, id) = storage_with_walk(vec![1, 2, 1, 3]);
    storage.split_and_remove_from_bookkeeping(&id, 2).unwrap();
    assert_eq!(storage.get_walk(id).unwrap().get_nodes(), &[1, 2]);
    assert_eq!(storage.get_visits_through_node(1).unwrap().get(&id), Some(&0));
    assert_eq!(storage.get_visits_through_node(2).unwrap().get(&id), Some(&1));
    assert_eq!(storage.get_visits_through_node(3).unwrap().get(&id), None);
    assert!(storage.assert_visits_consistency().is_ok());
    assert!(matches!(
        storage.split_and_remove_from_bookkeeping(&9, 0),
        Err(MeritRankError::InternalFatalError(Some(_)))
    ));
}

#[test]
fn affected_walks_without_destination_are_all_visitors() {
    let (storage, id) = storage_with_walk(vec![1, 2, 3]);
    let affected = storage.find_affected_walkids(2, None, None).unwrap();
    assert_eq!(affected, vec![(id, 1)]);
    assert!(storage.find_affected_walkids(7, None, None).unwrap().is_empty());
}

#[test]
fn affected_walks_on_edge_deletion_take_the_step() {
    let (storage, id) = storage_with_walk(vec![1, 2, 3]);
    assert_eq!(storage.find_affected_walkids(2, Some(3), None).unwrap(), vec![(id, 1)]);
    assert!(storage.find_affected_walkids(1, Some(3), None).unwrap().is_empty());
}

#[test]
fn affected_walks_on_edge_addition_follow_the_draws() {
    let (storage, id) = storage_with_walk(vec![1, 2, 1, 3]);
    let mut draws: HashMap<usize, Vec<(bool, bool)>> = HashMap::new();
    draws.insert(id, vec![(false, false), (true, true)]);
    assert_eq!(storage.find_affected_walkids(1, Some(9), Some(&draws)).unwrap(), vec![(id, 2)]);
    draws.insert(id, vec![(false, false), (false, false)]);
    assert!(storage.find_affected_walkids(1, Some(9), Some(&draws)).unwrap().is_empty());
}

#[test]
fn dropping_walks_clears_their_visits() {
    let (mut storage, id) = storage_with_walk(vec![4, 5, 6]);
    storage.drop_walks_from_node(4).unwrap();
    assert!(storage.get_walk(id).unwrap().is_empty());
    for node in 4..7 {
        assert!(storage.get_visits_through_node(node).unwrap().get(&id).is_none());
    }
    assert!(storage.assert_visits_consistency().is_ok());
    assert!(storage.get_walks().len() >= 7);
}
