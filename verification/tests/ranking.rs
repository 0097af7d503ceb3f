use meritrank::errors::MeritRankError;
use meritrank::random_walk::RandomWalk;
use meritrank::ranking::Ranking;

fn consistent(r: &Ranking) -> bool {
    r.walks().assert_visits_consistency().is_ok()
        && r.hits().assert_counters_consistency_after_edge_addition(r.walks()).is_ok()
}

fn build_walk(r: &mut Ranking, ego: usize, rest: &[usize]) -> usize {
    let id = r.start_walk(ego).unwrap();
    r.extend_walk(id, &RandomWalk::from_nodes(rest.to_vec()));
    r.finish_walk(id, 0);
    id
}

#[test]
fn built_walks_are_counted_and_indexed() {
    let mut r = Ranking::new();
    let a = build_walk(&mut r, 0, &[1, 2]);
    let b = build_walk(&mut r, 0, &[2, 1, 3]);
    assert_eq!((a, b), (0, 1));
    let pos = r.hits().positive_hits(0).unwrap();
    assert_eq!((pos.get_count(&0), pos.get_count(&1), pos.get_count(&2), pos.get_count(&3)), (2, 2, 2, 1));
    assert_eq!(r.walks().get_visits_through_node(3).unwrap().get(&b), Some(&3));
    assert!(consistent(&r));
}

#[test]
fn rewalking_keeps_counts_and_index_consistent() {
    let mut r = Ranking::new();
    let id = build_walk(&mut r, 0, &[1, 2, 3]);
    // rebuild after the visit at position 1
    assert!(matches!(r.begin_rewalk(id, 1), Ok(0)));
    assert_eq!(r.walk(id).unwrap().get_nodes(), &[0, 1]);
    r.push_step(id, 4, false);
    r.extend_walk(id, &RandomWalk::from_nodes(vec![5]));
    r.finish_walk(id, 2);
    let walk = r.walk(id).unwrap();
    assert_eq!(walk.get_nodes(), &[0, 1, 4, 5]);
    assert_eq!(walk.negative_segment_start, Some(2));
    let pos = r.hits().positive_hits(0).unwrap();
    assert_eq!((pos.get_count(&2), pos.get_count(&3), pos.get_count(&1)), (0, 0, 1));
    let neg = r.hits().negative_hits(0).unwrap();
    assert_eq!((neg.get_count(&4), neg.get_count(&5)), (1, 1));
    assert!(consistent(&r));
}

#[test]
fn rewalking_an_unknown_walk_fails() {
    let mut r = Ranking::new();
    assert!(matches!(r.begin_rewalk(3, 0), Err(MeritRankError::InternalFatalError(Some(_)))));
}

#[test]
fn dropped_walk_ids_are_reused() {
    let mut r = Ranking::new();
    let a = build_walk(&mut r, 7, &[8]);
    let _b = build_walk(&mut r, 9, &[8]);
    r.drop_walks_from_node(7).unwrap();
    assert!(r.walk(a).unwrap().is_empty());
    let c = r.start_walk(7).unwrap();
    assert_eq!(c, a);
    assert_eq!(r.walk(c).unwrap().get_nodes(), &[7]);
}

#[test]
fn rewalk_cuts_continues_and_recounts() {
    let mut r = Ranking::new();
    let id = build_walk(&mut r, 0, &[1, 2, 3]);
    let mut segment = RandomWalk::from_nodes(vec![4, 5]);
    segment.negative_segment_start = Some(0);
    assert!(r.rewalk(id, 1, &segment).is_ok());
    let walk = r.walk(id).unwrap();
    assert_eq!(walk.get_nodes(), &[0, 1, 4, 5]);
    assert_eq!(walk.negative_segment_start, Some(2));
    let pos = r.hits().positive_hits(0).unwrap();
    assert_eq!((pos.get_count(&1), pos.get_count(&2), pos.get_count(&3)), (1, 0, 0));
    let neg = r.hits().negative_hits(0).unwrap();
    assert_eq!((neg.get_count(&4), neg.get_count(&5)), (1, 1));
    assert!(consistent(&r));
    assert!(matches!(r.rewalk(9, 0, &segment), Err(MeritRankError::InternalFatalError(Some(_)))));
}

#[test]
fn rewalk_all_rebuilds_each_planned_walk() {
    let mut r = Ranking::new();
    let a = build_walk(&mut r, 0, &[1, 2, 3]);
    let b = build_walk(&mut r, 0, &[2, 1]);
    let c = build_walk(&mut r, 6, &[7]);
    let plan = vec![
        (a, 2, RandomWalk::from_nodes(vec![8])),
        (b, 0, RandomWalk::from_nodes(vec![9, 1])),
    ];
    assert!(r.rewalk_all(&plan).is_ok());
    assert_eq!(r.walk(a).unwrap().get_nodes(), &[0, 1, 2, 8]);
    assert_eq!(r.walk(b).unwrap().get_nodes(), &[0, 9, 1]);
    assert_eq!(r.walk(c).unwrap().get_nodes(), &[6, 7]);
    let pos = r.hits().positive_hits(0).unwrap();
    assert_eq!((pos.get_count(&1), pos.get_count(&2), pos.get_count(&3)), (2, 1, 0));
    assert_eq!((pos.get_count(&8), pos.get_count(&9)), (1, 1));
    assert!(consistent(&r));
    let bad = vec![(a, 0, RandomWalk::from_nodes(vec![5])), (17, 0, RandomWalk::new())];
    assert!(matches!(r.rewalk_all(&bad), Err(MeritRankError::InternalFatalError(Some(_)))));
    assert_eq!(r.walk(a).unwrap().get_nodes(), &[0, 5]);
}

#[test]
fn rewalk_all_stops_at_the_first_failing_entry() {
    let mut r = Ranking::new();
    let a = build_walk(&mut r, 0, &[1, 2]);
    let b = build_walk(&mut r, 0, &[3]);
    let plan = vec![
        (a, 0, RandomWalk::from_nodes(vec![4])),
        (42, 0, RandomWalk::new()),
        (b, 0, RandomWalk::from_nodes(vec![5])),
    ];
    assert!(matches!(
        r.rewalk_all(&plan),
        Err(MeritRankError::InternalFatalError(Some(site))) if site.contains("get_walk")
    ));
    assert_eq!(r.walk(a).unwrap().get_nodes(), &[0, 4]);
    assert_eq!(r.walk(b).unwrap().get_nodes(), &[0, 3]);
}
