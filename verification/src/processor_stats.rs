//! Queue and processing-time statistics of an operation processor, for load tests
//! and tuning: how many operations wait, and percentiles of how long the latest
//! ones took.
use vstd::prelude::*;
use vstd::relations::{sorted_by, total_ordering};
use vstd::seq_lib::lemma_sorted_unique;

verus! {

broadcast use vstd::seq_lib::group_to_multiset_ensures;

/// Pending count and processing-time percentiles, in microseconds, at one moment.
#[derive(Debug, Clone)]
pub struct StatsSnapshot {
    pub pending: usize,
    pub median_us: u64,
    pub p95_us: u64,
    pub p99_us: u64,
    pub min_us: u64,
    pub max_us: u64,
    pub count: usize,
}

/// The pending count after one more enqueued operation (wrapping, as a counter does).
pub open spec fn after_enqueue(pending: usize) -> usize {
    if pending == usize::MAX {
        0
    } else {
        (pending + 1) as usize
    }
}

/// The pending count after one more applied operation (wrapping, as a counter does).
pub open spec fn after_applied(pending: usize) -> usize {
    if pending == 0 {
        usize::MAX
    } else {
        (pending - 1) as usize
    }
}

/// The pending count after a sequence of events, each an enqueued (`true`) or an
/// applied (`false`) operation, starting from `pending`.
pub open spec fn pending_after(pending: usize, events: Seq<bool>) -> usize
    decreases events.len(),
{
    if events.len() == 0 {
        pending
    } else {
        let before = pending_after(pending, events.drop_last());
        if events.last() {
            after_enqueue(before)
        } else {
            after_applied(before)
        }
    }
}

/// The number of enqueued operations among `events` less the number of applied ones.
pub open spec fn net_enqueued(events: Seq<bool>) -> int
    decreases events.len(),
{
    if events.len() == 0 {
        0
    } else {
        net_enqueued(events.drop_last()) + if events.last() {
            1int
        } else {
            -1int
        }
    }
}

/// After any sequence of enqueued and applied operations, the pending count is the
/// count it started from plus the enqueued operations less the applied ones,
/// wrapping around as a `usize` does; from a fresh or reset collector that is
/// enqueued less applied.
pub proof fn lemma_pending_counts_events(pending: usize, events: Seq<bool>)
    ensures
        pending_after(pending, events) as int == (pending + net_enqueued(events)) % (
        usize::MAX + 1),
    decreases events.len(),
{
    let m = usize::MAX + 1;
    if events.len() == 0 {
        assert((pending as int) % m == pending as int) by (nonlinear_arith)
            requires
                0 <= pending < m,
        ;
    } else {
        let rest = events.drop_last();
        lemma_pending_counts_events(pending, rest);
        let x = pending + net_enqueued(rest);
        let q = pending_after(pending, rest);
        assert(q as int == x % m);
        if events.last() {
            assert((x + 1) % m == if x % m == m - 1 {
                0
            } else {
                x % m + 1
            }) by (nonlinear_arith)
                requires
                    m > 0,
            ;
        } else {
            assert((x - 1) % m == if x % m == 0 {
                m - 1
            } else {
                x % m - 1
            }) by (nonlinear_arith)
                requires
                    m > 0,
            ;
        }
    }
}

/// The kept processing times, never more than `max` of them.
struct TimeSamples {
    items: Vec<u64>,
    max: usize,
}

impl TimeSamples {
    #[verifier::type_invariant]
    closed spec fn within_max(self) -> bool {
        self.items@.len() <= self.max
    }

    /// Adds a time, the oldest times giving way so that at most `max` stay.
    fn record(&mut self, elapsed_us: u64)
        ensures
            final(self).items@ == kept_samples(old(self).items@.push(elapsed_us), old(self).max as int),
            final(self).max == old(self).max,
    {
        let mut items: Vec<u64> = Vec::new();
        std::mem::swap(&mut items, &mut self.items);
        items.push(elapsed_us);
        let n = items.len();
        if n > self.max {
            let drop = n - self.max;
            let mut kept: Vec<u64> = Vec::new();
            let mut i = drop;
            while i < n
                invariant
                    drop <= i <= n,
                    n == items.len(),
                    kept@ == items@.subrange(drop as int, i as int),
                decreases n - i,
            {
                kept.push(items[i]);
                i = i + 1;
            }
            items = kept;
        }
        self.items = items;
    }

    /// Forgets the times.
    fn clear(&mut self)
        ensures
            final(self).items@ == Seq::<u64>::empty(),
            final(self).max == old(self).max,
    {
        let mut items: Vec<u64> = Vec::new();
        std::mem::swap(&mut items, &mut self.items);
    }
}

/// Counts pending operations and keeps the processing times of the latest
/// `max_samples` applied ones.
pub struct ProcessorStats {
    pub ops_pending: usize,
    samples: TimeSamples,
}

/// The contents of a statistics collector.
pub struct StatsView {
    /// Operations enqueued and not applied yet (wrapping, as a counter does).
    pub pending: usize,
    /// Processing times of the latest applied operations, in microseconds, oldest
    /// first.
    pub samples: Seq<u64>,
    /// How many processing times are kept.
    pub max_samples: usize,
}

impl View for ProcessorStats {
    type V = StatsView;

    closed spec fn view(&self) -> StatsView {
        StatsView {
            pending: self.ops_pending,
            samples: self.samples.items@,
            max_samples: self.samples.max,
        }
    }
}

/// The order of processing times.
pub open spec fn time_le() -> spec_fn(u64, u64) -> bool {
    |x: u64, y: u64| x <= y
}

/// The processing times in ascending order.
pub open spec fn sorted_times(samples: Seq<u64>) -> Seq<u64> {
    samples.sort_by(time_le())
}

/// The position, among `count` sorted times, of the `percent` percentile: the
/// whole part of `count * percent / 100`, and at most the last position.
pub open spec fn percentile_position(count: int, percent: int) -> int {
    let p = count * percent / 100;
    if p < count - 1 {
        p
    } else {
        count - 1
    }
}

/// The times of `samples` kept after one more was added: the latest `max`.
pub open spec fn kept_samples(samples: Seq<u64>, max: int) -> Seq<u64> {
    if samples.len() > max {
        samples.subrange(samples.len() - max, samples.len() as int)
    } else {
        samples
    }
}

/// Whether `snap` is the snapshot of `pending` pending operations and the processing
/// times `samples`: zero statistics without samples, else the median (the lower
/// middle one), the 95th and 99th percentiles, the least and the greatest time.
pub open spec fn is_snapshot_of(snap: StatsSnapshot, pending: usize, samples: Seq<u64>) -> bool {
    let count = samples.len() as int;
    let sorted = sorted_times(samples);
    &&& snap.pending == pending
    &&& snap.count == count
    &&& count == 0 ==> snap.median_us == 0 && snap.p95_us == 0 && snap.p99_us == 0 && snap.min_us
        == 0 && snap.max_us == 0
    &&& count > 0 ==> {
        &&& snap.median_us == sorted[(count - 1) / 2]
        &&& snap.p95_us == sorted[percentile_position(count, 95)]
        &&& snap.p99_us == sorted[percentile_position(count, 99)]
        &&& snap.min_us == sorted[0]
        &&& snap.max_us == sorted[count - 1]
    }
}

/// The order of processing times is a total order.
pub proof fn lemma_time_le_total()
    ensures
        total_ordering(time_le()),
{
}

/// The sorted times are the given times in ascending order: the only ascending
/// sequence that holds each time as often as the samples do.
pub proof fn lemma_sorted_times(samples: Seq<u64>)
    ensures
        sorted_by(sorted_times(samples), time_le()),
        sorted_times(samples).to_multiset() == samples.to_multiset(),
        sorted_times(samples).len() == samples.len(),
{
    lemma_time_le_total();
    samples.lemma_sort_by_ensures(time_le());
    assert(sorted_times(samples).len() == sorted_times(samples).to_multiset().len());
}

/// The snapshot statistics come in order: the least time, the median, the 95th
/// and the 99th percentile, the greatest time.
pub proof fn lemma_snapshot_ordered(snap: StatsSnapshot, pending: usize, samples: Seq<u64>)
    requires
        is_snapshot_of(snap, pending, samples),
    ensures
        snap.min_us <= snap.median_us <= snap.p95_us <= snap.p99_us <= snap.max_us,
{
    let count = samples.len() as int;
    if count > 0 {
        lemma_sorted_times(samples);
        let sorted = sorted_times(samples);
        let m = (count - 1) / 2;
        let a = percentile_position(count, 95);
        let b = percentile_position(count, 99);
        assert(count * 95 / 100 >= m) by (nonlinear_arith)
            requires
                count >= 1,
                m == (count - 1) / 2,
        ;
        assert(count * 99 / 100 >= count * 95 / 100) by (nonlinear_arith)
            requires
                count >= 1,
        ;
        assert(0 <= m <= a <= b <= count - 1);
        assert(m == 0 || (time_le())(sorted[0], sorted[m]));
        assert(a == m || (time_le())(sorted[m], sorted[a]));
        assert(b == a || (time_le())(sorted[a], sorted[b]));
        assert(b == count - 1 || (time_le())(sorted[b], sorted[count - 1]));
    }
}

/// The snapshot depends on which times were kept, not on their order.
pub proof fn lemma_snapshot_ignores_order(s1: Seq<u64>, s2: Seq<u64>)
    requires
        s1.to_multiset() == s2.to_multiset(),
    ensures
        sorted_times(s1) == sorted_times(s2),
        s1.len() == s2.len(),
{
    lemma_sorted_times(s1);
    lemma_sorted_times(s2);
    lemma_time_le_total();
    lemma_sorted_unique(sorted_times(s1), sorted_times(s2), time_le());
}

/// `samples` in ascending order.
fn sort_times(samples: &Vec<u64>) -> (sorted: Vec<u64>)
    ensures
        sorted@ == sorted_times(samples@),
{
    let mut sorted: Vec<u64> = Vec::new();
    let mut i: usize = 0;
    while i < samples.len()
        invariant
            i <= samples.len(),
            sorted_by(sorted@, time_le()),
            sorted@.to_multiset() == samples@.take(i as int).to_multiset(),
            sorted@.len() == i,
        decreases samples.len() - i,
    {
        let x = samples[i];
        let mut j: usize = 0;
        while j < sorted.len() && sorted[j] <= x
            invariant
                j <= sorted.len(),
                forall|k: int| 0 <= k < j ==> sorted@[k] <= x,
            decreases sorted.len() - j,
        {
            j = j + 1;
        }
        let ghost before = sorted@;
        sorted.insert(j, x);
        proof {
            assert(sorted@ == before.insert(j as int, x));
            assert(samples@.take(i + 1) == samples@.take(i as int).push(x));
            assert(samples@.take(i as int).push(x) == samples@.take(i as int).insert(i as int, x));
            assert forall|a: int, b: int| 0 <= a < b < sorted@.len() implies #[trigger] (time_le())(
                sorted@[a],
                sorted@[b],
            ) by {
                if b < j {
                    assert((time_le())(before[a], before[b]));
                } else if b == j {
                } else if a < j {
                    assert(sorted@[a] <= x);
                    assert(j < before.len() ==> !(before[j as int] <= x));
                    assert((time_le())(before[j as int], before[b - 1]) || b - 1 == j);
                } else if a == j {
                    assert((time_le())(before[j as int], before[b - 1]) || b - 1 == j);
                } else {
                    assert((time_le())(before[a - 1], before[b - 1]));
                }
            }
        }
        i = i + 1;
    }
    proof {
        assert(samples@.take(samples@.len() as int) == samples@);
        lemma_sorted_times(samples@);
        lemma_time_le_total();
        lemma_sorted_unique(sorted@, sorted_times(samples@), time_le());
    }
    sorted
}

/// The position, among `count` sorted times, of the `percent` percentile.
fn percentile_index(count: usize, percent: usize) -> (index: usize)
    requires
        count >= 1,
        percent <= 100,
    ensures
        index == percentile_position(count as int, percent as int),
{
    assert(count / 100 * percent <= count / 100 * 100) by (nonlinear_arith)
        requires
            percent <= 100,
    ;
    assert(count % 100 * percent <= 99 * 100) by (nonlinear_arith)
        requires
            percent <= 100,
            count % 100 < 100,
    ;
    let whole = count / 100 * percent;
    let part = count % 100 * percent / 100;
    proof {
        assert(whole + part == count * percent / 100) by (nonlinear_arith)
            requires
                whole == count / 100 * percent,
                part == count % 100 * percent / 100,
                percent <= 100,
        ;
        assert(count * percent / 100 <= count) by (nonlinear_arith)
            requires
                percent <= 100,
        ;
    }
    let p = whole + part;
    if p < count - 1 {
        p
    } else {
        count - 1
    }
}

impl ProcessorStats {
    /// A collector with nothing pending that keeps the latest `max_samples` times.
    pub fn new(max_samples: usize) -> (stats: Self)
        ensures
            stats@.pending == 0,
            stats@.samples == Seq::<u64>::empty(),
            stats@.max_samples == max_samples,
    {
        ProcessorStats { ops_pending: 0, samples: TimeSamples { items: Vec::new(), max: max_samples } }
    }

    /// Forgets the times and the pending count (after a warm-up, before a load
    /// phase).
    pub fn reset(&mut self)
        ensures
            final(self)@.pending == 0,
            final(self)@.samples == Seq::<u64>::empty(),
            final(self)@.max_samples == old(self)@.max_samples,
    {
        self.ops_pending = 0;
        self.samples.clear();
    }

    /// Counts an operation that was enqueued.
    pub fn record_enqueue(&mut self)
        ensures
            final(self)@.pending == after_enqueue(old(self)@.pending),
            final(self)@.samples == old(self)@.samples,
            final(self)@.max_samples == old(self)@.max_samples,
    {
        self.ops_pending = self.ops_pending.wrapping_add(1);
    }

    /// Counts an operation that was applied, after `elapsed_us` microseconds: one
    /// fewer is pending, and its time is kept, the oldest times giving way so that
    /// at most `max_samples` stay.
    pub fn record_applied(&mut self, elapsed_us: u64)
        ensures
            final(self)@.pending == after_applied(old(self)@.pending),
            final(self)@.samples == kept_samples(
                old(self)@.samples.push(elapsed_us),
                old(self)@.max_samples as int,
            ),
            final(self)@.samples.len() <= old(self)@.max_samples,
            final(self)@.max_samples == old(self)@.max_samples,
    {
        self.ops_pending = self.ops_pending.wrapping_sub(1);
        self.samples.record(elapsed_us);
        proof {
            use_type_invariant(&self.samples);
        }
    }

    /// The pending count (the field `ops_pending`).
    pub fn pending(&self) -> (pending: usize)
        ensures
            pending == self@.pending,
    {
        self.ops_pending
    }

    /// The pending count and the percentiles of the kept times.
    pub fn snapshot(&self) -> (snap: StatsSnapshot)
        ensures
            is_snapshot_of(snap, self@.pending, self@.samples),
            snap.count <= self@.max_samples,
    {
        proof {
            use_type_invariant(&self.samples);
        }
        let pending = self.ops_pending;
        let count = self.samples.items.len();
        if count == 0 {
            return StatsSnapshot {
                pending,
                median_us: 0,
                p95_us: 0,
                p99_us: 0,
                min_us: 0,
                max_us: 0,
                count: 0,
            };
        }
        let sorted = sort_times(&self.samples.items);
        proof {
            lemma_sorted_times(self@.samples);
        }
        let median_us = sorted[(count - 1) / 2];
        let p95_us = sorted[percentile_index(count, 95)];
        let p99_us = sorted[percentile_index(count, 99)];
        let min_us = sorted[0];
        let max_us = sorted[count - 1];
        StatsSnapshot { pending, median_us, p95_us, p99_us, min_us, max_us, count }
    }
}

} // verus!
