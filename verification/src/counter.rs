//! Per-node hit counters.
use std::collections::HashMap;
use vstd::prelude::*;
use vstd::set::fold::{is_fun_commutative, lemma_fold_insert, lemma_fold_empty};
use vstd::std_specs::hash::spec_hash_map_iter;
use vstd::std_specs::iter::IteratorSpec;

use crate::node_set::{node_set_from, node_set_values};
use crate::random_walk::NodeId;

verus! {

/// The count kept for one node.
pub type CounterValue = i32;

/// Keeps a non-negative count for each node that has been counted.
pub struct Counter {
    counter: HashMap<NodeId, CounterValue>,
}

/// The count of `key` in `counts`; nodes without an entry count zero.
pub open spec fn count_of(counts: Map<NodeId, CounterValue>, key: NodeId) -> int {
    if counts.contains_key(key) {
        counts[key] as int
    } else {
        0
    }
}

/// Whether every count is non-negative, as every counter keeps it.
pub open spec fn non_negative_counts(counts: Map<NodeId, CounterValue>) -> bool {
    forall|k: NodeId| #[trigger] counts.contains_key(k) ==> counts[k] >= 0
}

/// Number of times `key` occurs in `items`.
pub open spec fn occurrences(items: Seq<NodeId>, key: NodeId) -> nat
    decreases items.len(),
{
    if items.len() == 0 {
        0
    } else {
        occurrences(items.drop_last(), key) + if items.last() == key {
            1nat
        } else {
            0nat
        }
    }
}

/// The counts after adding one per occurrence of each item.
pub open spec fn incremented(counts: Map<NodeId, CounterValue>, items: Seq<NodeId>) -> Map<
    NodeId,
    CounterValue,
> {
    Map::new(
        |k: NodeId| counts.contains_key(k) || items.contains(k),
        |k: NodeId| (count_of(counts, k) + occurrences(items, k)) as CounterValue,
    )
}

/// The counts after taking one off per occurrence of each item while the count is
/// positive.
pub open spec fn decremented(counts: Map<NodeId, CounterValue>, items: Seq<NodeId>) -> Map<
    NodeId,
    CounterValue,
> {
    Map::new(
        |k: NodeId| counts.contains_key(k),
        |k: NodeId|
            if counts[k] >= occurrences(items, k) {
                (counts[k] - occurrences(items, k)) as CounterValue
            } else {
                0
            },
    )
}

/// The counts after adding one for each distinct item.
pub open spec fn incremented_unique(counts: Map<NodeId, CounterValue>, items: Seq<NodeId>) -> Map<
    NodeId,
    CounterValue,
> {
    Map::new(
        |k: NodeId| counts.contains_key(k) || items.contains(k),
        |k: NodeId|
            (count_of(counts, k) + if items.contains(k) {
                1int
            } else {
                0int
            }) as CounterValue,
    )
}

/// The counts after taking one off for each distinct item whose count is positive.
pub open spec fn decremented_unique(counts: Map<NodeId, CounterValue>, items: Seq<NodeId>) -> Map<
    NodeId,
    CounterValue,
> {
    Map::new(
        |k: NodeId| counts.contains_key(k),
        |k: NodeId|
            if items.contains(k) && counts[k] > 0 {
                (counts[k] - 1) as CounterValue
            } else {
                counts[k]
            },
    )
}

/// The step that adds the count of `key` to a running sum.
pub open spec fn add_count(counts: Map<NodeId, CounterValue>) -> spec_fn(int, NodeId) -> int {
    |acc: int, key: NodeId| acc + counts[key] as int
}

/// The sum of all counts.
pub open spec fn total_of(counts: Map<NodeId, CounterValue>) -> int {
    counts.dom().fold(0int, add_count(counts))
}

impl View for Counter {
    type V = Map<NodeId, CounterValue>;

    closed spec fn view(&self) -> Map<NodeId, CounterValue> {
        self.counter@
    }
}

proof fn lemma_add_count_commutative(counts: Map<NodeId, CounterValue>)
    ensures
        is_fun_commutative(add_count(counts)),
{
}

proof fn lemma_occurrences_push(items: Seq<NodeId>, x: NodeId, key: NodeId)
    ensures
        occurrences(items.push(x), key) == occurrences(items, key) + if x == key {
            1nat
        } else {
            0nat
        },
{
    assert(items.push(x).drop_last() == items);
}

proof fn lemma_occurrences_contains(items: Seq<NodeId>, key: NodeId)
    ensures
        occurrences(items, key) > 0 <==> items.contains(key),
    decreases items.len(),
{
    if items.len() > 0 {
        lemma_occurrences_contains(items.drop_last(), key);
        if items.drop_last().contains(key) {
            let j = choose|j: int| 0 <= j < items.drop_last().len() && items.drop_last()[j] == key;
            assert(items[j] == key);
        }
        if items.contains(key) && items.last() != key {
            let j = choose|j: int| 0 <= j < items.len() && items[j] == key;
            assert(items.drop_last()[j] == key);
        }
    }
}

proof fn lemma_prefix_push<A>(s: Seq<A>, i: int)
    requires
        0 <= i < s.len(),
    ensures
        s.subrange(0, i + 1) == s.subrange(0, i).push(s[i]),
{
    assert(s.subrange(0, i + 1) =~= s.subrange(0, i).push(s[i]));
}

impl Counter {
    #[verifier::type_invariant]
    closed spec fn non_negative(self) -> bool {
        forall|k: NodeId| #[trigger] self.counter@.contains_key(k) ==> self.counter@[k] >= 0
    }

    /// Creates a counter with no entries.
    pub fn new() -> (c: Self)
        ensures
            c@ == Map::<NodeId, CounterValue>::empty(),
            non_negative_counts(c@),
    {
        Counter { counter: HashMap::new() }
    }

    /// The nodes that have an entry, each once.
    pub fn keys(&self) -> (keys: Vec<NodeId>)
        ensures
            keys@.no_duplicates(),
            keys@.to_set() == self@.dom(),
    {
        let ghost pairs = spec_hash_map_iter(&self.counter).remaining();
        proof {
            lemma_entry_keys(self.counter@, pairs);
        }
        let mut keys: Vec<NodeId> = Vec::new();
        for kv in it: self.counter.iter()
            invariant
                it.seq() == pairs,
                keys@ == entry_keys(pairs).take(it.index()),
        {
            keys.push(*kv.0);
            proof {
                assert(entry_keys(pairs).take(it.index() + 1) =~= entry_keys(pairs).take(
                    it.index(),
                ).push(*kv.0));
            }
        }
        proof {
            assert(entry_keys(pairs).take(pairs.len() as int) =~= entry_keys(pairs));
        }
        keys
    }

    /// Adds one to the count of each item, once per occurrence; items without an
    /// entry get one.
    pub fn increment_counts(&mut self, items: &[NodeId])
        requires
            forall|k: NodeId|
                count_of(old(self)@, k) + occurrences(items@, k) <= CounterValue::MAX,
        ensures
            non_negative_counts(final(self)@),
            final(self)@ == incremented(old(self)@, items@),
    {
        proof {
            use_type_invariant(&*self);
        }
        let mut map: HashMap<NodeId, CounterValue> = HashMap::new();
        std::mem::swap(&mut map, &mut self.counter);
        let ghost start = map@;
        let mut i: usize = 0;
        while i < items.len()
            invariant
                0 <= i <= items@.len(),
                start == old(self)@,
                forall|k: NodeId| #[trigger] start.contains_key(k) ==> start[k] >= 0,
                forall|k: NodeId|
                    count_of(start, k) + occurrences(items@, k) <= CounterValue::MAX,
                map@.dom() == start.dom().union(items@.subrange(0, i as int).to_set()),
                forall|k: NodeId|
                    #[trigger] count_of(map@, k) == count_of(start, k) + occurrences(
                        items@.subrange(0, i as int),
                        k,
                    ),
            decreases items@.len() - i,
        {
            let item = items[i];
            proof {
                lemma_prefix_push(items@, i as int);
                lemma_occurrences_push(items@.subrange(0, i as int), item, item);
                assert(occurrences(items@.subrange(0, i + 1), item) <= occurrences(items@, item))
                    by {
                    lemma_occurrences_prefix(items@, i + 1, item);
                }
                assert(count_of(map@, item) + 1 <= CounterValue::MAX);
            }
            let current: CounterValue = match map.get(&item) {
                Some(c) => *c,
                None => 0,
            };
            assert(current == count_of(map@, item));
            let ghost before = map@;
            map.insert(item, current + 1);
            proof {
                assert(map@ == before.insert(item, (current + 1) as CounterValue));
                assert forall|k: NodeId|
                    #[trigger] count_of(map@, k) == count_of(start, k) + occurrences(
                        items@.subrange(0, i + 1),
                        k,
                    ) by {
                    lemma_occurrences_push(items@.subrange(0, i as int), item, k);
                    if k == item {
                        assert(count_of(map@, k) == current + 1);
                    } else {
                        assert(count_of(map@, k) == count_of(before, k));
                    }
                }
                assert(items@.subrange(0, i + 1).to_set() == items@.subrange(0, i as int).to_set().insert(item)) by {
                    lemma_seq_push_to_set(items@.subrange(0, i as int), item);
                }
            }
            i = i + 1;
        }
        proof {
            assert(items@.subrange(0, items@.len() as int) == items@);
            assert forall|k: NodeId| #[trigger] map@.contains_key(k) implies map@[k] >= 0 by {
                assert(count_of(map@, k) == map@[k]);
                if start.contains_key(k) {
                    assert(start[k] >= 0);
                }
            }
        }
        proof {
            assert forall|k: NodeId| #[trigger] map@.contains_key(k) <==> incremented(
                start,
                items@,
            ).contains_key(k) by {
                lemma_seq_to_set_contains(items@, k);
            }
            assert forall|k: NodeId| #[trigger] map@.contains_key(k) implies map@[k] == incremented(
                start,
                items@,
            )[k] by {
                assert(count_of(map@, k) == map@[k]);
            }
            assert(map@ =~= incremented(start, items@));
        }
        self.counter = map;
    }

    /// Takes one off the count of each item, once per occurrence, as long as the count
    /// is positive; items without an entry are ignored.
    pub fn decrement_counts(&mut self, items: &[NodeId])
        ensures
            non_negative_counts(final(self)@),
            final(self)@ == decremented(old(self)@, items@),
    {
        proof {
            use_type_invariant(&*self);
        }
        let mut map: HashMap<NodeId, CounterValue> = HashMap::new();
        std::mem::swap(&mut map, &mut self.counter);
        let ghost start = map@;
        let mut i: usize = 0;
        while i < items.len()
            invariant
                0 <= i <= items@.len(),
                start == old(self)@,
                forall|k: NodeId| #[trigger] start.contains_key(k) ==> start[k] >= 0,
                map@.dom() == start.dom(),
                forall|k: NodeId| #[trigger]
                    start.contains_key(k) ==> map@[k] == if start[k] >= occurrences(
                        items@.subrange(0, i as int),
                        k,
                    ) {
                        start[k] - occurrences(items@.subrange(0, i as int), k)
                    } else {
                        0
                    },
            decreases items@.len() - i,
        {
            let item = items[i];
            match map.get(&item) {
                Some(c) => {
                    let current: CounterValue = *c;
                    if current > 0 {
                        map.insert(item, current - 1);
                    }
                },
                None => {},
            }
            proof {
                lemma_prefix_push(items@, i as int);
                assert forall|k: NodeId| #[trigger]
                    start.contains_key(k) implies map@[k] == if start[k] >= occurrences(
                        items@.subrange(0, i + 1),
                        k,
                    ) {
                        start[k] - occurrences(items@.subrange(0, i + 1), k)
                    } else {
                        0
                    } by {
                    lemma_occurrences_push(items@.subrange(0, i as int), item, k);
                }
            }
            i = i + 1;
        }
        proof {
            assert(items@.subrange(0, items@.len() as int) == items@);
        }
        proof {
            assert(map@ =~= decremented(start, items@));
        }
        self.counter = map;
    }

    /// Adds one to the count of each distinct item; items without an entry get one.
    pub fn increment_unique_counts(&mut self, items: &[NodeId])
        requires
            forall|k: NodeId| #[trigger] items@.contains(k) ==> count_of(old(self)@, k) < CounterValue::MAX,
        ensures
            non_negative_counts(final(self)@),
            final(self)@ == incremented_unique(old(self)@, items@),
    {
        proof {
            use_type_invariant(&*self);
        }
        let mut map: HashMap<NodeId, CounterValue> = HashMap::new();
        std::mem::swap(&mut map, &mut self.counter);
        let ghost start = map@;
        let set = node_set_from(items);
        let unique = node_set_values(&set);
        proof {
            assert forall|k: NodeId| #[trigger] unique@.contains(k) <==> items@.contains(k) by {
                lemma_seq_to_set_contains(unique@, k);
                lemma_seq_to_set_contains(items@, k);
            }
        }
        let mut i: usize = 0;
        while i < unique.len()
            invariant
                0 <= i <= unique@.len(),
                start == old(self)@,
                forall|k: NodeId| #[trigger] start.contains_key(k) ==> start[k] >= 0,
                forall|k: NodeId| #[trigger] items@.contains(k) ==> count_of(start, k) < CounterValue::MAX,
                unique@.no_duplicates(),
                forall|k: NodeId| #[trigger] unique@.contains(k) <==> items@.contains(k),
                map@.dom() == start.dom().union(unique@.subrange(0, i as int).to_set()),
                forall|k: NodeId|
                    #[trigger] count_of(map@, k) == count_of(start, k) + if unique@.subrange(
                        0,
                        i as int,
                    ).to_set().contains(k) {
                        1int
                    } else {
                        0int
                    },
            decreases unique@.len() - i,
        {
            let item = unique[i];
            let ghost seen_before = unique@.subrange(0, i as int).to_set();
            proof {
                lemma_prefix_push(unique@, i as int);
                lemma_seq_push_to_set(unique@.subrange(0, i as int), item);
                assert(unique@.contains(item)) by {
                    assert(unique@[i as int] == item);
                }
                lemma_seq_to_set_contains(unique@.subrange(0, i as int), item);
                if unique@.subrange(0, i as int).contains(item) {
                    let j = choose|j: int| 0 <= j < i && unique@.subrange(0, i as int)[j] == item;
                    assert(unique@[j] == unique@[i as int]);
                }
                assert(!seen_before.contains(item));
            }
            let ghost map_before = map@;
            let current: CounterValue = match map.get(&item) {
                Some(c) => *c,
                None => 0,
            };
            assert(current == count_of(map@, item));
            assert(count_of(map@, item) == count_of(start, item));
            map.insert(item, current + 1);
            proof {
                let seen = unique@.subrange(0, i + 1).to_set();
                assert(seen == seen_before.insert(item));
                assert forall|k: NodeId|
                    #[trigger] count_of(map@, k) == count_of(start, k) + if seen.contains(k) {
                        1int
                    } else {
                        0int
                    } by {
                    if k != item {
                        assert(count_of(map@, k) == count_of(map_before, k));
                        assert(seen.contains(k) == seen_before.contains(k));
                    }
                }
                assert(map@.dom() =~= start.dom().union(seen));
            }
            i = i + 1;
        }
        proof {
            assert(unique@.subrange(0, unique@.len() as int) == unique@);
            assert forall|k: NodeId| #[trigger] map@.contains_key(k) implies map@[k] >= 0 by {
                assert(count_of(map@, k) == map@[k]);
                if start.contains_key(k) {
                    assert(start[k] >= 0);
                }
            }
            assert forall|k: NodeId| #[trigger] unique@.to_set().contains(k) <==> items@.contains(k) by {
                lemma_seq_to_set_contains(unique@, k);
            }
        }
        proof {
            assert forall|k: NodeId| #[trigger] map@.contains_key(k) <==> incremented_unique(
                start,
                items@,
            ).contains_key(k) by {
                lemma_seq_to_set_contains(unique@, k);
            }
            assert forall|k: NodeId| #[trigger] map@.contains_key(k) implies map@[k]
                == incremented_unique(start, items@)[k] by {
                assert(count_of(map@, k) == map@[k]);
            }
            assert(map@ =~= incremented_unique(start, items@));
        }
        self.counter = map;
    }

    /// Takes one off the count of each distinct item whose count is positive; items
    /// without an entry are ignored.
    pub fn decrement_unique_counts(&mut self, items: &[NodeId])
        ensures
            non_negative_counts(final(self)@),
            final(self)@ == decremented_unique(old(self)@, items@),
    {
        proof {
            use_type_invariant(&*self);
        }
        let mut map: HashMap<NodeId, CounterValue> = HashMap::new();
        std::mem::swap(&mut map, &mut self.counter);
        let ghost start = map@;
        let set = node_set_from(items);
        let unique = node_set_values(&set);
        let mut i: usize = 0;
        while i < unique.len()
            invariant
                0 <= i <= unique@.len(),
                start == old(self)@,
                forall|k: NodeId| #[trigger] start.contains_key(k) ==> start[k] >= 0,
                unique@.no_duplicates(),
                map@.dom() == start.dom(),
                forall|k: NodeId| #[trigger]
                    start.contains_key(k) ==> map@[k] == if unique@.subrange(0, i as int).to_set().contains(k)
                        && start[k] > 0 {
                        start[k] - 1
                    } else {
                        start[k] as int
                    },
            decreases unique@.len() - i,
        {
            let item = unique[i];
            let ghost seen_before = unique@.subrange(0, i as int).to_set();
            proof {
                lemma_prefix_push(unique@, i as int);
                lemma_seq_push_to_set(unique@.subrange(0, i as int), item);
                lemma_seq_to_set_contains(unique@.subrange(0, i as int), item);
                if unique@.subrange(0, i as int).contains(item) {
                    let j = choose|j: int| 0 <= j < i && unique@.subrange(0, i as int)[j] == item;
                    assert(unique@[j] == unique@[i as int]);
                }
                assert(!seen_before.contains(item));
            }
            match map.get(&item) {
                Some(c) => {
                    let current: CounterValue = *c;
                    if current > 0 {
                        map.insert(item, current - 1);
                    }
                },
                None => {},
            }
            proof {
                assert(unique@.subrange(0, i + 1).to_set() == seen_before.insert(item));
                assert(map@.dom() =~= start.dom());
            }
            i = i + 1;
        }
        proof {
            assert(unique@.subrange(0, unique@.len() as int) == unique@);
            assert forall|k: NodeId| #[trigger] unique@.to_set().contains(k) <==> items@.contains(k) by {
                lemma_seq_to_set_contains(unique@, k);
                lemma_seq_to_set_contains(items@, k);
            }
        }
        proof {
            assert(map@ =~= decremented_unique(start, items@));
        }
        self.counter = map;
    }

    /// The count of `key`; zero for a node without an entry.
    pub fn get_count(&self, key: &NodeId) -> (count: CounterValue)
        ensures
            count == count_of(self@, *key),
    {
        match self.counter.get(key) {
            Some(c) => *c,
            None => 0,
        }
    }

    /// The sum of all counts.
    pub fn total_count(&self) -> (total: CounterValue)
        requires
            total_of(self@) <= CounterValue::MAX,
        ensures
            total == total_of(self@),
    {
        proof {
            use_type_invariant(self);
        }
        let ghost counts = self.counter@;
        let ghost pairs = spec_hash_map_iter(&self.counter).remaining();
        let ghost ks = entry_keys(pairs);
        proof {
            lemma_entry_keys(counts, pairs);
            lemma_add_count_commutative(counts);
            lemma_fold_empty(0int, add_count(counts));
            assert(ks.take(0).to_set() =~= Set::<NodeId>::empty());
        }
        let mut sum: CounterValue = 0;
        for kv in it: self.counter.iter()
            invariant
                it.seq() == pairs,
                counts == self.counter@,
                counts.dom().finite(),
                ks == entry_keys(pairs),
                ks.len() == pairs.len(),
                ks.no_duplicates(),
                ks.to_set() == counts.dom(),
                forall|j: int| 0 <= j < pairs.len() ==> *(#[trigger] pairs[j]).1 == counts[ks[j]],
                non_negative_counts(counts),
                total_of(counts) <= CounterValue::MAX,
                is_fun_commutative(add_count(counts)),
                sum == ks.take(it.index()).to_set().fold(0int, add_count(counts)),
        {
            let ghost i = it.index();
            let ghost done = ks.take(i).to_set();
            proof {
                assert(ks.take(i + 1) =~= ks.take(i).push(ks[i]));
                lemma_seq_push_to_set(ks.take(i), ks[i]);
                assert(!done.contains(ks[i])) by {
                    if done.contains(ks[i]) {
                        let j = choose|j: int| 0 <= j < ks.take(i).len() && ks.take(i)[j] == ks[i];
                        assert(ks[j] == ks[i]);
                    }
                }
                assert(done.subset_of(counts.dom())) by {
                    assert forall|k: NodeId| done.contains(k) implies counts.dom().contains(k) by {
                        let j = choose|j: int| 0 <= j < ks.take(i).len() && ks.take(i)[j] == k;
                        assert(ks.to_set().contains(ks[j]));
                    }
                }
                vstd::set_lib::lemma_set_subset_finite(counts.dom(), done);
                assert(ks.to_set().contains(ks[i]));
                lemma_sum_below_total(counts, done, ks[i]);
                assert(*pairs[i].1 == counts[ks[i]]);
            }
            sum = sum + *kv.1;
            proof {
                lemma_fold_insert(done, 0int, add_count(counts), ks[i]);
            }
        }
        proof {
            assert(ks.take(ks.len() as int) =~= ks);
        }
        sum
    }

    /// The sum of all counts, if it fits a count.
    pub fn checked_total_count(&self) -> (total: Option<CounterValue>)
        ensures
            total == if total_of(self@) <= CounterValue::MAX {
                Some(total_of(self@) as CounterValue)
            } else {
                None::<CounterValue>
            },
    {
        proof {
            use_type_invariant(self);
        }
        let ghost counts = self.counter@;
        let ghost pairs = spec_hash_map_iter(&self.counter).remaining();
        let ghost ks = entry_keys(pairs);
        proof {
            lemma_entry_keys(counts, pairs);
            lemma_add_count_commutative(counts);
            lemma_fold_empty(0int, add_count(counts));
            assert(ks.take(0).to_set() =~= Set::<NodeId>::empty());
        }
        let mut sum: CounterValue = 0;
        for kv in it: self.counter.iter()
            invariant
                it.seq() == pairs,
                counts == self.counter@,
                counts.dom().finite(),
                ks == entry_keys(pairs),
                ks.len() == pairs.len(),
                ks.no_duplicates(),
                ks.to_set() == counts.dom(),
                forall|j: int| 0 <= j < pairs.len() ==> *(#[trigger] pairs[j]).1 == counts[ks[j]],
                non_negative_counts(counts),
                is_fun_commutative(add_count(counts)),
                sum == ks.take(it.index()).to_set().fold(0int, add_count(counts)),
        {
            let ghost i = it.index();
            let ghost done = ks.take(i).to_set();
            proof {
                assert(ks.take(i + 1) =~= ks.take(i).push(ks[i]));
                lemma_seq_push_to_set(ks.take(i), ks[i]);
                assert(!done.contains(ks[i])) by {
                    if done.contains(ks[i]) {
                        let j = choose|j: int| 0 <= j < ks.take(i).len() && ks.take(i)[j] == ks[i];
                        assert(ks[j] == ks[i]);
                    }
                }
                assert(done.subset_of(counts.dom())) by {
                    assert forall|k: NodeId| done.contains(k) implies counts.dom().contains(k) by {
                        let j = choose|j: int| 0 <= j < ks.take(i).len() && ks.take(i)[j] == k;
                        assert(ks.to_set().contains(ks[j]));
                    }
                }
                vstd::set_lib::lemma_set_subset_finite(counts.dom(), done);
                assert(ks.to_set().contains(ks[i]));
                lemma_sum_below_total(counts, done, ks[i]);
                assert(*pairs[i].1 == counts[ks[i]]);
            }
            if sum > CounterValue::MAX - *kv.1 {
                return None;
            }
            sum = sum + *kv.1;
            proof {
                lemma_fold_insert(done, 0int, add_count(counts), ks[i]);
            }
        }
        proof {
            assert(ks.take(ks.len() as int) =~= ks);
        }
        Some(sum)
    }
}

/// The keys of a sequence of map entries.
pub open spec fn entry_keys(pairs: Seq<(&NodeId, &CounterValue)>) -> Seq<NodeId> {
    pairs.map_values(|p: (&NodeId, &CounterValue)| *p.0)
}

/// The entries that iterating a counter's map yields name each node with an entry
/// exactly once, together with its count.
proof fn lemma_entry_keys(counts: Map<NodeId, CounterValue>, pairs: Seq<(&NodeId, &CounterValue)>)
    requires
        counts.dom().finite(),
        pairs.len() == counts.dom().len(),
        forall|j: int|
            0 <= j < pairs.len() ==> counts.contains_key(*(#[trigger] pairs[j]).0) && counts[*pairs[j].0]
                == *pairs[j].1,
        forall|k: NodeId| #[trigger] counts.contains_key(k) ==> pairs.contains((&k, &counts[k])),
    ensures
        entry_keys(pairs).len() == pairs.len(),
        entry_keys(pairs).no_duplicates(),
        entry_keys(pairs).to_set() == counts.dom(),
        forall|j: int| 0 <= j < pairs.len() ==> *(#[trigger] pairs[j]).1 == counts[entry_keys(pairs)[j]],
{
    let ks = entry_keys(pairs);
    assert forall|k: NodeId| #[trigger] ks.to_set().contains(k) <==> counts.dom().contains(k) by {
        if counts.contains_key(k) {
            let j = choose|j: int| 0 <= j < pairs.len() && pairs[j] == (&k, &counts[k]);
            assert(ks[j] == k);
        }
        if ks.contains(k) {
            let j = choose|j: int| 0 <= j < ks.len() && ks[j] == k;
            assert(counts.contains_key(*pairs[j].0));
        }
    }
    assert(ks.to_set() =~= counts.dom());
    ks.lemma_no_dup_set_cardinality();
}

impl Clone for Counter {
    fn clone(&self) -> (copy: Self)
        ensures
            copy@ == self@,
    {
        proof {
            use_type_invariant(self);
        }
        Counter { counter: self.counter.clone() }
    }
}

impl Default for Counter {
    fn default() -> (c: Self)
        ensures
            c@ == Map::<NodeId, CounterValue>::empty(),
    {
        Counter::new()
    }
}

/// Iterates over the entries of a [`Counter`].
pub struct CounterIterator {
    entries: Vec<(NodeId, CounterValue)>,
    position: usize,
}

impl CounterIterator {
    /// The entries that are still to come.
    pub closed spec fn remaining(&self) -> Seq<(NodeId, CounterValue)> {
        self.entries@.subrange(self.position as int, self.entries@.len() as int)
    }

    #[verifier::type_invariant]
    closed spec fn position_in_range(self) -> bool {
        self.position <= self.entries@.len()
    }

    /// The next entry, if any.
    pub fn next(&mut self) -> (entry: Option<(NodeId, CounterValue)>)
        ensures
            old(self).remaining().len() > 0 ==> entry == Some(old(self).remaining()[0])
                && final(self).remaining() == old(self).remaining().drop_first(),
            old(self).remaining().len() == 0 ==> entry is None && final(self).remaining() == old(
                self,
            ).remaining(),
    {
        proof {
            use_type_invariant(&*self);
        }
        if self.position < self.entries.len() {
            let entry = self.entries[self.position];
            self.position = self.position + 1;
            proof {
                assert(self.remaining() =~= old(self).remaining().drop_first());
            }
            Some(entry)
        } else {
            None
        }
    }
}

impl Counter {
    /// Iterates over the entries: each node with an entry exactly once, with its
    /// count.
    pub fn iter(&self) -> (it: CounterIterator)
        ensures
            it.remaining().len() == self@.dom().len(),
            it.remaining().map_values(|e: (NodeId, CounterValue)| e.0).no_duplicates(),
            forall|j: int|
                0 <= j < it.remaining().len() ==> self@.contains_key((#[trigger] it.remaining()[j]).0)
                    && self@[it.remaining()[j].0] == it.remaining()[j].1,
            forall|k: NodeId| #[trigger] self@.contains_key(k) ==> it.remaining().contains((k, self@[k])),
    {
        let ghost pairs = spec_hash_map_iter(&self.counter).remaining();
        let ghost counts = self.counter@;
        proof {
            lemma_entry_keys(counts, pairs);
        }
        let mut entries: Vec<(NodeId, CounterValue)> = Vec::new();
        for kv in it: self.counter.iter()
            invariant
                it.seq() == pairs,
                counts == self.counter@,
                entries@ == pairs.take(it.index()).map_values(
                    |p: (&NodeId, &CounterValue)| (*p.0, *p.1),
                ),
        {
            entries.push((*kv.0, *kv.1));
            proof {
                assert(pairs.take(it.index() + 1).map_values(
                    |p: (&NodeId, &CounterValue)| (*p.0, *p.1),
                ) =~= pairs.take(it.index()).map_values(
                    |p: (&NodeId, &CounterValue)| (*p.0, *p.1),
                ).push((*kv.0, *kv.1)));
            }
        }
        let it = CounterIterator { entries, position: 0 };
        proof {
            let es = it.entries@;
            assert(pairs.take(pairs.len() as int) =~= pairs);
            assert(it.remaining() =~= es);
            assert(es.map_values(|e: (NodeId, CounterValue)| e.0) =~= entry_keys(pairs));
            assert forall|k: NodeId| #[trigger] counts.contains_key(k) implies es.contains(
                (k, counts[k]),
            ) by {
                assert(entry_keys(pairs).to_set().contains(k));
                let j = choose|j: int| 0 <= j < entry_keys(pairs).len() && entry_keys(pairs)[j] == k;
                assert(es[j] == (k, counts[k]));
            }
        }
        it
    }
}

/// Taking one off each distinct item's count undoes adding one to it: every node
/// has its former count again (a node that had no entry before now has an entry of
/// zero).
pub proof fn lemma_decrement_unique_undoes_increment_unique(
    counts: Map<NodeId, CounterValue>,
    items: Seq<NodeId>,
)
    requires
        non_negative_counts(counts),
        forall|k: NodeId| #[trigger] items.contains(k) ==> count_of(counts, k) < CounterValue::MAX,
    ensures
        forall|k: NodeId|
            #[trigger] count_of(decremented_unique(incremented_unique(counts, items), items), k)
                == count_of(counts, k),
{
}

/// Taking one off per occurrence undoes adding one per occurrence: every node has its
/// former count again (a node that had no entry before now has an entry of zero).
pub proof fn lemma_decrement_undoes_increment(counts: Map<NodeId, CounterValue>, items: Seq<NodeId>)
    requires
        non_negative_counts(counts),
        forall|k: NodeId| count_of(counts, k) + occurrences(items, k) <= CounterValue::MAX,
    ensures
        forall|k: NodeId|
            #[trigger] count_of(decremented(incremented(counts, items), items), k) == count_of(
                counts,
                k,
            ),
{
    assert forall|k: NodeId|
        #[trigger] count_of(decremented(incremented(counts, items), items), k) == count_of(
            counts,
            k,
        ) by {
        lemma_occurrences_contains(items, k);
    }
}

/// Adding the count of a node that is not yet in `done` stays within the total.
proof fn lemma_sum_below_total(counts: Map<NodeId, CounterValue>, done: Set<NodeId>, key: NodeId)
    requires
        counts.dom().finite(),
        done.finite(),
        done.subset_of(counts.dom()),
        counts.contains_key(key),
        !done.contains(key),
        forall|k: NodeId| #[trigger] counts.contains_key(k) ==> counts[k] >= 0,
    ensures
        done.fold(0int, add_count(counts)) + counts[key] <= total_of(counts),
{
    lemma_add_count_commutative(counts);
    lemma_fold_insert(done, 0int, add_count(counts), key);
    lemma_fold_monotone(counts, done.insert(key), counts.dom());
}

/// With non-negative counts, the sum over a subset of the nodes is at most the sum
/// over a superset.
proof fn lemma_fold_monotone(counts: Map<NodeId, CounterValue>, a: Set<NodeId>, b: Set<NodeId>)
    requires
        b.finite(),
        a.subset_of(b),
        b.subset_of(counts.dom()),
        forall|k: NodeId| #[trigger] counts.contains_key(k) ==> counts[k] >= 0,
    ensures
        a.fold(0int, add_count(counts)) <= b.fold(0int, add_count(counts)),
    decreases b.len() - a.len(),
{
    vstd::set_lib::lemma_len_subset(a, b);
    if a =~= b {
    } else {
        let x = choose|x: NodeId| b.contains(x) && !a.contains(x);
        lemma_add_count_commutative(counts);
        vstd::set_lib::lemma_set_subset_finite(b, a);
        lemma_fold_insert(a, 0int, add_count(counts), x);
        vstd::set_lib::lemma_len_subset(a.insert(x), b);
        lemma_fold_monotone(counts, a.insert(x), b);
    }
}

proof fn lemma_occurrences_prefix(items: Seq<NodeId>, i: int, key: NodeId)
    requires
        0 <= i <= items.len(),
    ensures
        occurrences(items.subrange(0, i), key) <= occurrences(items, key),
    decreases items.len() - i,
{
    if i < items.len() {
        lemma_occurrences_prefix(items, i + 1, key);
        lemma_prefix_push(items, i);
        lemma_occurrences_push(items.subrange(0, i), items[i], key);
    } else {
        assert(items.subrange(0, i) == items);
    }
}

pub(crate) proof fn lemma_seq_push_to_set(s: Seq<NodeId>, x: NodeId)
    ensures
        s.push(x).to_set() == s.to_set().insert(x),
{
    assert forall|k: NodeId| #[trigger] s.push(x).to_set().contains(k) <==> s.to_set().insert(x).contains(k) by {
        lemma_seq_to_set_contains(s.push(x), k);
        lemma_seq_to_set_contains(s, k);
        if s.contains(k) {
            let j = choose|j: int| 0 <= j < s.len() && s[j] == k;
            assert(s.push(x)[j] == k);
        }
        if k == x {
            assert(s.push(x)[s.len() as int] == k);
        }
        if s.push(x).contains(k) && k != x {
            let j = choose|j: int| 0 <= j < s.len() + 1 && s.push(x)[j] == k;
            assert(s[j] == k);
        }
    }
    assert(s.push(x).to_set() =~= s.to_set().insert(x));
}

pub(crate) proof fn lemma_seq_to_set_contains(s: Seq<NodeId>, k: NodeId)
    ensures
        s.to_set().contains(k) <==> s.contains(k),
{
}

} // verus!
