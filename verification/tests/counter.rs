use meritrank::counter::Counter;

#[test]
fn increment_counts_counts_every_occurrence() {
    let mut c = Counter::new();
    c.increment_counts(&[1, 2, 1]);
    assert_eq!(c.get_count(&1), 2);
    assert_eq!(c.get_count(&2), 1);
    assert_eq!(c.get_count(&3), 0);
    assert_eq!(c.total_count(), 3);
}

#[test]
fn increment_unique_counts_counts_each_node_once() {
    let mut c = Counter::new();
    c.increment_unique_counts(&[1, 2, 1, 1]);
    assert_eq!(c.get_count(&1), 1);
    assert_eq!(c.get_count(&2), 1);
    assert_eq!(c.total_count(), 2);
}

#[test]
fn decrement_unique_counts_undoes_increment_unique_counts() {
    let mut c = Counter::new();
    c.increment_counts(&[4, 5, 5]);
    let before: Vec<(usize, i32)> = {
        let mut v = vec![(4, c.get_count(&4)), (5, c.get_count(&5))];
        v.sort();
        v
    };
    c.increment_unique_counts(&[5, 6, 5]);
    assert_eq!(c.get_count(&5), 3);
    assert_eq!(c.get_count(&6), 1);
    c.decrement_unique_counts(&[5, 6, 5]);
    assert_eq!(vec![(4, c.get_count(&4)), (5, c.get_count(&5))], before);
    assert_eq!(c.get_count(&6), 0);
}

#[test]
fn decrement_counts_undoes_increment_counts() {
    let mut c = Counter::new();
    c.increment_counts(&[7, 8]);
    c.increment_counts(&[7, 7, 9]);
    c.decrement_counts(&[7, 7, 9]);
    assert_eq!(c.get_count(&7), 1);
    assert_eq!(c.get_count(&8), 1);
    assert_eq!(c.get_count(&9), 0);
    assert_eq!(c.total_count(), 2);
}

#[test]
fn keys_and_iter_list_every_entry_once() {
    let mut c = Counter::new();
    c.increment_counts(&[3, 1, 3]);
    let mut keys = c.keys();
    keys.sort();
    assert_eq!(keys, vec![1, 3]);
    let mut entries = Vec::new();
    let mut it = c.iter();
    while let Some(e) = it.next() {
        entries.push(e);
    }
    entries.sort();
    assert_eq!(entries, vec![(1, 1), (3, 2)]);
}

#[test]
fn default_and_clone() {
    let c = Counter::default();
    assert_eq!(c.total_count(), 0);
    let mut d = Counter::new();
    d.increment_counts(&[2]);
    let e = d.clone();
    assert_eq!(e.get_count(&2), 1);
}
