use meritrank::errors::MeritRankError;
use meritrank::rank::WalkHits;
use meritrank::random_walk::RandomWalk;
use meritrank::walk_storage::WalkStorage;

fn store_walk(storage: &mut WalkStorage, steps: &[(usize, bool)]) -> usize {
    let id = storage.get_next_free_walkid();
    let walk = storage.get_walk_mut(id).unwrap();
    for (n, positive) in steps {
        walk.push(*n, *positive);
    }
    storage.update_walk_bookkeeping(id, 0);
    id
}

#[test]
fn recorded_walks_are_consistent() {
    let mut storage = WalkStorage::new();
    let mut hits = WalkHits::new();
    let a = store_walk(&mut storage, &[(0, true), (1, true), (2, false), (3, true)]);
    let b = store_walk(&mut storage, &[(0, true), (2, true), (1, true)]);
    hits.record_walk(0, storage.get_walk(a).unwrap());
    hits.record_walk(0, storage.get_walk(b).unwrap());
    let pos = hits.positive_hits(0).unwrap();
    assert_eq!(pos.get_count(&0), 2);
    assert_eq!(pos.get_count(&1), 2);
    assert_eq!(pos.get_count(&2), 1);
    assert_eq!(pos.get_count(&3), 0);
    let neg = hits.negative_hits(0).unwrap();
    assert_eq!(neg.get_count(&2), 1);
    assert_eq!(neg.get_count(&3), 1);
    assert!(hits.positive_hits(5).is_none());
    assert!(hits.assert_counters_consistency_after_edge_addition(&storage).is_ok());
}

#[test]
fn a_count_too_many_is_reported() {
    let mut storage = WalkStorage::new();
    let mut hits = WalkHits::new();
    let a = store_walk(&mut storage, &[(0, true), (1, true)]);
    hits.record_walk(0, storage.get_walk(a).unwrap());
    hits.record_walk(0, storage.get_walk(a).unwrap());
    assert!(matches!(
        hits.assert_counters_consistency_after_edge_addition(&storage),
        Err(MeritRankError::InternalFatalError(Some(_)))
    ));
}

#[test]
fn a_counted_node_without_visits_is_reported() {
    let storage = WalkStorage::new();
    let mut hits = WalkHits::new();
    hits.record_walk(4, &RandomWalk::from_nodes(vec![4, 9]));
    assert!(matches!(
        hits.assert_counters_consistency_after_edge_addition(&storage),
        Err(MeritRankError::InternalFatalError(Some(_)))
    ));
}

#[test]
fn revert_undoes_record() {
    let mut hits = WalkHits::new();
    let first = RandomWalk::from_nodes(vec![1, 2, 3]);
    hits.record_walk(1, &first);
    let mut second = RandomWalk::from_nodes(vec![1, 3]);
    second.push(4, false);
    hits.record_walk(1, &second);
    hits.revert_walk(1, &second);
    let pos = hits.positive_hits(1).unwrap();
    assert_eq!((pos.get_count(&1), pos.get_count(&2), pos.get_count(&3)), (1, 1, 1));
    assert_eq!(hits.negative_hits(1).unwrap().get_count(&4), 0);
    assert_eq!(hits.get_personal_hits().len(), 1);
}

#[test]
fn empty_hits_are_consistent_with_any_storage() {
    let mut storage = WalkStorage::new();
    store_walk(&mut storage, &[(3, true), (4, true)]);
    let hits = WalkHits::new();
    assert!(hits.assert_counters_consistency_after_edge_addition(&storage).is_ok());
}
