use meritrank::poll::{
    PollStore, NO_VOTES, OPTION_EXISTS, OPTION_MISSING, POLL_MISSING, VOTE_MISSING,
};

fn store_with_options() -> PollStore<f64> {
    let mut store = PollStore::new();
    assert_eq!(store.add_poll_option(11, 1), Ok(()));
    assert_eq!(store.add_poll_option(12, 1), Ok(()));
    assert_eq!(store.add_poll_option(13, 1), Ok(()));
    assert_eq!(store.add_poll_option(21, 2), Ok(()));
    store
}

#[test]
fn poll_options_keep_insertion_order() {
    let store = store_with_options();
    assert_eq!(store.get_poll_options(1), Some(vec![11, 12, 13]));
    assert_eq!(store.get_poll_options(2), Some(vec![21]));
    assert_eq!(store.get_poll_options(3), None);
    assert_eq!(store.get_option_poll(12), Some(&1));
    assert_eq!(store.get_option_poll(21), Some(&2));
    assert_eq!(store.get_option_poll(99), None);
}

#[test]
fn option_belongs_to_one_poll() {
    let mut store = store_with_options();
    assert_eq!(store.add_poll_option(11, 2), Err(OPTION_EXISTS));
    assert_eq!(store.add_poll_option(11, 1), Err(OPTION_EXISTS));
    assert_eq!(store.get_poll_options(2), Some(vec![21]));
    assert_eq!(store.get_option_poll(11), Some(&1));
}

#[test]
fn vote_for_unknown_option_fails() {
    let mut store = store_with_options();
    assert_eq!(store.add_user_vote(100, 99, 1.0), Err(OPTION_MISSING));
    assert!(store.get_poll_votes(1).is_none());
}

#[test]
fn votes_are_kept_per_poll_and_replaced() {
    let mut store = store_with_options();
    assert_eq!(store.add_user_vote(100, 11, 1.0), Ok(()));
    assert_eq!(store.add_user_vote(101, 12, 0.5), Ok(()));
    assert_eq!(store.add_user_vote(100, 13, 2.0), Ok(()));
    let votes = store.get_poll_votes(1).unwrap();
    assert_eq!(votes.len(), 2);
    assert_eq!(votes[&100].option, 13);
    assert_eq!(votes[&100].weight, 2.0);
    assert_eq!(votes[&101].option, 12);
    assert!(store.get_poll_votes(2).is_none());
}

#[test]
fn remove_user_vote_errors_and_success() {
    let mut store = store_with_options();
    assert_eq!(store.remove_user_vote(100, 1), Err(NO_VOTES));
    assert_eq!(store.add_user_vote(100, 11, 1.0), Ok(()));
    assert_eq!(store.remove_user_vote(101, 1), Err(VOTE_MISSING));
    assert_eq!(store.remove_user_vote(100, 1), Ok(()));
    assert_eq!(store.get_poll_votes(1).unwrap().len(), 0);
    assert_eq!(store.remove_user_vote(100, 1), Err(VOTE_MISSING));
}

#[test]
fn remove_option_moves_last_into_place_and_drops_its_votes() {
    let mut store = store_with_options();
    assert_eq!(store.add_user_vote(100, 11, 1.0), Ok(()));
    assert_eq!(store.add_user_vote(101, 12, 1.0), Ok(()));
    assert_eq!(store.add_user_vote(102, 11, 3.0), Ok(()));
    assert_eq!(store.remove_option_from_poll(11), Ok(()));
    assert_eq!(store.get_poll_options(1), Some(vec![13, 12]));
    assert_eq!(store.get_option_poll(11), None);
    let votes = store.get_poll_votes(1).unwrap();
    assert_eq!(votes.len(), 1);
    assert_eq!(votes[&101].option, 12);
    assert_eq!(store.remove_option_from_poll(11), Err(OPTION_MISSING));
}

#[test]
fn remove_last_option_leaves_empty_poll() {
    let mut store = store_with_options();
    assert_eq!(store.remove_option_from_poll(21), Ok(()));
    assert_eq!(store.get_poll_options(2), Some(vec![]));
    assert_eq!(store.add_poll_option(21, 1), Ok(()));
    assert_eq!(store.get_poll_options(1), Some(vec![11, 12, 13, 21]));
}

#[test]
fn remove_poll_drops_options_and_votes() {
    let mut store = store_with_options();
    assert_eq!(store.add_user_vote(100, 12, 1.0), Ok(()));
    assert_eq!(store.remove_poll(1), Ok(()));
    assert_eq!(store.get_poll_options(1), None);
    assert_eq!(store.get_option_poll(11), None);
    assert_eq!(store.get_option_poll(13), None);
    assert!(store.get_poll_votes(1).is_none());
    assert_eq!(store.get_option_poll(21), Some(&2));
    assert_eq!(store.remove_poll(1), Err(POLL_MISSING));
    assert_eq!(store.add_user_vote(100, 12, 1.0), Err(OPTION_MISSING));
    assert_eq!(store.add_poll_option(12, 3), Ok(()));
}

#[test]
fn default_store_is_empty() {
    let mut store: PollStore<f64> = PollStore::default();
    assert_eq!(store.get_poll_options(1), None);
    assert_eq!(store.get_option_poll(1), None);
    assert!(store.get_poll_votes(1).is_none());
    assert_eq!(store.remove_poll(1), Err(POLL_MISSING));
}
