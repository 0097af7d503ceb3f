//! The hit counters of a ranking: for each ego, how many of its walks visit each
//! node in their positive part and in their negative part, and the check that the
//! counters agree with the stored walks.
use std::collections::HashMap;
use vstd::prelude::*;
use vstd::std_specs::hash::spec_hash_map_iter;
use vstd::std_specs::iter::IteratorSpec;

use crate::counter::{
    lemma_seq_push_to_set, count_of, decremented_unique, incremented_unique, lemma_decrement_unique_undoes_increment_unique,
    non_negative_counts, Counter, CounterValue,
};
use crate::errors::internal_fatal;
use crate::errors::MeritRankError;
use crate::random_walk::{positive_end, NodeId, RandomWalk, WalkView};
use crate::walk_storage::{StorageView, WalkId, WalkStorage};

verus! {

/// Per ego, the counts of the nodes that its walks visit in their positive part
/// (`pos_hits`) and in their negative part (`neg_hits`).
#[derive(Clone)]
pub struct WalkHits {
    pos_hits: HashMap<NodeId, Counter>,
    neg_hits: HashMap<NodeId, Counter>,
}

/// The contents of the hit counters: per ego, the counts of each node.
pub struct HitsView {
    pub pos: Map<NodeId, Map<NodeId, CounterValue>>,
    pub neg: Map<NodeId, Map<NodeId, CounterValue>>,
}

impl View for WalkHits {
    type V = HitsView;

    closed spec fn view(&self) -> HitsView {
        HitsView {
            pos: self.pos_hits@.map_values(|c: Counter| c@),
            neg: self.neg_hits@.map_values(|c: Counter| c@),
        }
    }
}

/// The counts of `ego`; no counts for an ego without a counter.
pub open spec fn counts_for(hits: Map<NodeId, Map<NodeId, CounterValue>>, ego: NodeId) -> Map<
    NodeId,
    CounterValue,
> {
    if hits.contains_key(ego) {
        hits[ego]
    } else {
        Map::empty()
    }
}

/// The nodes of the positive part of a stored walk.
pub open spec fn positive_nodes(walk: WalkView) -> Seq<NodeId> {
    walk.nodes.subrange(0, positive_end(walk.nodes.len(), walk.negative_segment_start) as int)
}

/// The nodes of the negative part of a stored walk.
pub open spec fn negative_nodes(walk: WalkView) -> Seq<NodeId> {
    walk.nodes.subrange(
        positive_end(walk.nodes.len(), walk.negative_segment_start) as int,
        walk.nodes.len() as int,
    )
}

/// Whether walk `w`, recorded as visiting `peer`, counts as a hit of `peer` for
/// `ego`: it is a stored walk that starts at `ego`, and it visits `peer` in its
/// positive part (the recorded visit comes before the negative segment) or, for the
/// negative counts, in its negative part.
pub open spec fn counts_as_hit(
    v: StorageView,
    peer: NodeId,
    ego: NodeId,
    positive: bool,
    w: WalkId,
) -> bool {
    let walk = v.walks[w as int];
    &&& w < v.walks.len()
    &&& walk.nodes.len() > 0
    &&& walk.nodes[0] == ego
    &&& if positive {
        match walk.negative_segment_start {
            Some(start) => v.visits[peer as int][w] < start,
            None => true,
        }
    } else {
        negative_nodes(walk).contains(peer)
    }
}

/// The walks recorded as visiting `peer` that count as its hits for `ego`.
pub open spec fn hit_walks(v: StorageView, peer: NodeId, ego: NodeId, positive: bool) -> Set<
    WalkId,
> {
    v.visits[peer as int].dom().filter(|w: WalkId| counts_as_hit(v, peer, ego, positive, w))
}

/// Whether the counts of `ego` on one side agree with the walks: each counted node
/// has an entry in the visit index, and its count is the number of its hits.
pub open spec fn ego_consistent(
    counts: Map<NodeId, CounterValue>,
    v: StorageView,
    ego: NodeId,
    positive: bool,
) -> bool {
    forall|peer: NodeId| #[trigger]
        counts.contains_key(peer) ==> peer < v.visits.len() && counts[peer] == hit_walks(
            v,
            peer,
            ego,
            positive,
        ).len()
}

/// Whether all counts on one side agree with the walks.
pub open spec fn side_consistent(
    hits: Map<NodeId, Map<NodeId, CounterValue>>,
    v: StorageView,
    positive: bool,
) -> bool {
    forall|ego: NodeId| #[trigger]
        hits.contains_key(ego) ==> ego_consistent(hits[ego], v, ego, positive)
}

/// Whether the hit counters agree with the stored walks on both sides.
pub open spec fn hits_consistent(h: HitsView, v: StorageView) -> bool {
    side_consistent(h.pos, v, true) && side_consistent(h.neg, v, false)
}

/// Whether `e` is one of the errors that the consistency check reports.
pub open spec fn is_consistency_error(e: MeritRankError) -> bool {
    ||| e == MeritRankError::InternalFatalError(Some(internal_fatal::RANK_ASSERT_GET_VISITS))
    ||| e == MeritRankError::InternalFatalError(Some(internal_fatal::RANK_ASSERT_POS_HITS_COUNT))
    ||| e == MeritRankError::InternalFatalError(Some(internal_fatal::RANK_ASSERT_NEG_HITS_COUNT))
}

/// Adding an element to a set adds one to the size of each filtered part that it
/// belongs to.
proof fn lemma_filter_insert_len(s: Set<WalkId>, x: WalkId, p: spec_fn(WalkId) -> bool)
    requires
        s.finite(),
        !s.contains(x),
    ensures
        s.insert(x).filter(p).len() == s.filter(p).len() + if p(x) {
            1int
        } else {
            0int
        },
{
    vstd::set_lib::lemma_set_subset_finite(s, s.filter(p));
    if p(x) {
        assert(s.insert(x).filter(p) =~= s.filter(p).insert(x));
    } else {
        assert(s.insert(x).filter(p) =~= s.filter(p));
    }
}

/// The keys of the entries that iterating a visit map yields.
pub open spec fn visit_keys(pairs: Seq<(&WalkId, &usize)>) -> Seq<WalkId> {
    pairs.map_values(|p: (&WalkId, &usize)| *p.0)
}

/// Whether `peer` occurs in `nodes`.
fn slice_contains(nodes: &[NodeId], peer: NodeId) -> (found: bool)
    ensures
        found == nodes@.contains(peer),
{
    let mut i: usize = 0;
    while i < nodes.len()
        invariant
            i <= nodes@.len(),
            forall|k: int| 0 <= k < i ==> nodes@[k] != peer,
        decreases nodes@.len() - i,
    {
        if nodes[i] == peer {
            proof {
                assert(nodes@[i as int] == peer);
            }
            return true;
        }
        i = i + 1;
    }
    false
}

/// Whether a stored walk, recorded as visiting a node at `pos`, counts as a hit of
/// `peer` for `ego`.
fn walk_counts(walk: &RandomWalk, pos: usize, peer: NodeId, ego: NodeId, positive: bool) -> (hit:
    bool)
    ensures
        hit == ({
            &&& walk.nodes@.len() > 0
            &&& walk.nodes@[0] == ego
            &&& if positive {
                match walk.negative_segment_start {
                    Some(start) => pos < start,
                    None => true,
                }
            } else {
                negative_nodes(walk@).contains(peer)
            }
        }),
{
    if walk.nodes.len() == 0 || walk.nodes[0] != ego {
        return false;
    }
    if positive {
        match walk.negative_segment_start {
            Some(start) => pos < start,
            None => true,
        }
    } else {
        slice_contains(walk.negative_subsegment(), peer)
    }
}

/// The number of hits of `peer` for `ego` on one side, or `None` when the visit
/// index has no entry for `peer`.
fn count_hits(walks: &WalkStorage, peer: NodeId, ego: NodeId, positive: bool) -> (count: Option<
    usize,
>)
    ensures
        peer >= walks@.visits.len() ==> count is None,
        peer < walks@.visits.len() ==> (count matches Some(n) && n == hit_walks(
            walks@,
            peer,
            ego,
            positive,
        ).len()),
{
    let visits = match walks.get_visits_through_node(peer) {
        Some(m) => m,
        None => return None,
    };
    let ghost v = walks@;
    let ghost pred = |w: WalkId| counts_as_hit(v, peer, ego, positive, w);
    let ghost pairs = spec_hash_map_iter(visits).remaining();
    let n = visits.len();
    let mut count: usize = 0;
    proof {
        assert(visit_keys(pairs.take(0)).to_set() =~= Set::<WalkId>::empty());
        assert(Set::<WalkId>::empty().filter(pred) =~= Set::<WalkId>::empty());
    }
    for kv in it: visits.iter()
        invariant
            it.seq() == pairs,
            visits@ == v.visits[peer as int],
            peer < v.visits.len(),
            v == walks@,
            pred == (|w: WalkId| counts_as_hit(v, peer, ego, positive, w)),
            pairs.no_duplicates(),
            pairs.len() == visits@.dom().len(),
            forall|i: int|
                #![trigger visits@.contains_key(*pairs[i].0)]
                0 <= i < pairs.len() ==> visits@.contains_key(*pairs[i].0) && visits@[*pairs[i].0]
                    == *pairs[i].1,
            forall|k: WalkId| #[trigger] visits@.contains_key(k) ==> pairs.contains((&k, &visits@[k])),
            count == visit_keys(pairs.take(it.index())).to_set().filter(pred).len(),
            count <= it.index(),
            pairs.len() == n,
    {
        let w = *kv.0;
        let pos = *kv.1;
        let ghost i = it.index();
        proof {
            assert(kv == pairs[i]);
            assert(pos == v.visits[peer as int][w]);
            assert(visits@.contains_key(*pairs[i].0));
            assert(pairs.take(i + 1) =~= pairs.take(i).push(pairs[i]));
            assert(visit_keys(pairs.take(i + 1)) =~= visit_keys(pairs.take(i)).push(w));
            lemma_seq_push_to_set(visit_keys(pairs.take(i)), w);
            if visit_keys(pairs.take(i)).to_set().contains(w) {
                let j = choose|j: int|
                    0 <= j < visit_keys(pairs.take(i)).len() && visit_keys(pairs.take(i))[j] == w;
                assert(pairs[j].0 == pairs[i].0);
                assert(visits@[*pairs[j].0] == *pairs[j].1);
                assert(pairs[j] == pairs[i]);
            }
            vstd::seq_lib::seq_to_set_is_finite(visit_keys(pairs.take(i)));
            lemma_filter_insert_len(visit_keys(pairs.take(i)).to_set(), w, pred);
        }
        let hit = match walks.get_walk(w) {
            Some(walk) => {
                let h = walk_counts(walk, pos, peer, ego, positive);
                proof {
                    assert(walk@ == v.walks[w as int]);
                    assert(h == counts_as_hit(v, peer, ego, positive, w));
                }
                h
            },
            None => false,
        };
        proof {
            assert(hit == counts_as_hit(v, peer, ego, positive, w));
            assert(pred(w) == counts_as_hit(v, peer, ego, positive, w));
        }
        if hit {
            count = count + 1;
        }
    }
    proof {
        assert(pairs.take(pairs.len() as int) =~= pairs);
        assert(visit_keys(pairs).to_set() =~= visits@.dom()) by {
            assert forall|k: WalkId| visit_keys(pairs).to_set().contains(k) <==> visits@.dom().contains(
                k,
            ) by {
                if visits@.contains_key(k) {
                    let j = choose|j: int| 0 <= j < pairs.len() && pairs[j] == (&k, &visits@[k]);
                    assert(visit_keys(pairs)[j] == k);
                }
                if visit_keys(pairs).contains(k) {
                    let j = choose|j: int| 0 <= j < visit_keys(pairs).len() && visit_keys(pairs)[j] == k;
                    assert(visits@.contains_key(*pairs[j].0));
                }
            }
        }
        assert(hit_walks(v, peer, ego, positive) =~= visits@.dom().filter(pred));
    }
    Some(count)
}

/// Checks the counts of `ego` on one side against the walks.
fn check_ego(counter: &Counter, walks: &WalkStorage, ego: NodeId, positive: bool) -> (result:
    Result<(), MeritRankError>)
    ensures
        result is Ok <==> ego_consistent(counter@, walks@, ego, positive),
        result matches Err(e) ==> is_consistency_error(e),
{
    let mut it = counter.iter();
    let ghost all = it.remaining();
    let ghost c = counter@;
    let ghost v = walks@;
    let ghost mut j: int = 0;
    loop
        invariant
            0 <= j <= all.len(),
            it.remaining() == all.skip(j),
            c == counter@,
            v == walks@,
            all.len() == c.dom().len(),
            forall|i: int|
                0 <= i < all.len() ==> c.contains_key((#[trigger] all[i]).0) && c[all[i].0]
                    == all[i].1,
            forall|k: NodeId| #[trigger] c.contains_key(k) ==> all.contains((k, c[k])),
            forall|i: int|
                0 <= i < j ==> (#[trigger] all[i]).0 < v.visits.len() && c[all[i].0] == hit_walks(
                    v,
                    all[i].0,
                    ego,
                    positive,
                ).len(),
        decreases all.len() - j,
    {
        let next = it.next();
        match next {
            None => {
                proof {
                    assert forall|peer: NodeId| #[trigger] c.contains_key(peer) implies peer
                        < v.visits.len() && c[peer] == hit_walks(v, peer, ego, positive).len() by {
                        let i = choose|i: int| 0 <= i < all.len() && all[i] == (peer, c[peer]);
                        assert(all.skip(j).len() == 0);
                    }
                }
                return Ok(());
            },
            Some((peer, count)) => {
                proof {
                    assert(all.skip(j)[0] == all[j]);
                    assert(all.skip(j).drop_first() =~= all.skip(j + 1));
                }
                match count_hits(walks, peer, ego, positive) {
                    None => {
                        proof {
                            assert(c.contains_key(all[j].0));
                        }
                        return Err(
                            MeritRankError::InternalFatalError(
                                Some(internal_fatal::RANK_ASSERT_GET_VISITS),
                            ),
                        );
                    },
                    Some(n) => {
                        proof {
                            assert((peer, count) == all[j]);
                        }
                        if count < 0 || n != count as usize {
                            proof {
                                assert(c.contains_key(all[j].0));
                            }
                            if positive {
                                return Err(
                                    MeritRankError::InternalFatalError(
                                        Some(internal_fatal::RANK_ASSERT_POS_HITS_COUNT),
                                    ),
                                );
                            } else {
                                return Err(
                                    MeritRankError::InternalFatalError(
                                        Some(internal_fatal::RANK_ASSERT_NEG_HITS_COUNT),
                                    ),
                                );
                            }
                        }
                        proof {
                            assert(count as int == n as int);
                            assert(c[all[j].0] == hit_walks(v, all[j].0, ego, positive).len());
                        }
                    },
                }
                proof {
                    j = j + 1;
                }
            },
        }
    }
}

/// Checks all counts of one side against the walks.
fn check_side(hits: &HashMap<NodeId, Counter>, walks: &WalkStorage, positive: bool) -> (result:
    Result<(), MeritRankError>)
    ensures
        result is Ok <==> side_consistent(hits@.map_values(|c: Counter| c@), walks@, positive),
        result matches Err(e) ==> is_consistency_error(e),
{
    let ghost hv = hits@.map_values(|c: Counter| c@);
    let ghost v = walks@;
    let ghost pairs = spec_hash_map_iter(hits).remaining();
    for kv in it: hits.iter()
        invariant
            it.seq() == pairs,
            v == walks@,
            hv == hits@.map_values(|c: Counter| c@),
            pairs.len() == hits@.dom().len(),
            forall|i: int|
                #![trigger hits@.contains_key(*pairs[i].0)]
                0 <= i < pairs.len() ==> hits@.contains_key(*pairs[i].0) && hits@[*pairs[i].0]
                    == *pairs[i].1,
            forall|k: NodeId| #[trigger] hits@.contains_key(k) ==> pairs.contains((&k, &hits@[k])),
            forall|i: int|
                0 <= i < it.index() ==> ego_consistent(
                    (*(#[trigger] pairs[i]).1)@,
                    v,
                    *pairs[i].0,
                    positive,
                ),
    {
        let ghost i = it.index();
        proof {
            assert(kv == pairs[i]);
        }
        let r = check_ego(kv.1, walks, *kv.0, positive);
        if r.is_err() {
            proof {
                assert(hits@.contains_key(*pairs[i].0));
                assert(hv[*kv.0] == kv.1@);
            }
            return r;
        }
    }
    proof {
        assert forall|ego: NodeId| #[trigger] hv.contains_key(ego) implies ego_consistent(
            hv[ego],
            v,
            ego,
            positive,
        ) by {
            assert(hits@.contains_key(ego));
            let i = choose|i: int| 0 <= i < pairs.len() && pairs[i] == (&ego, &hits@[ego]);
            assert(ego_consistent((*pairs[i].1)@, v, *pairs[i].0, positive));
        }
    }
    Ok(())
}

/// Takes the counter of `ego` out of `map`; an ego without one gets an empty one.
fn take_counter(map: &mut HashMap<NodeId, Counter>, ego: NodeId) -> (counter: Counter)
    ensures
        counter@ == counts_for(old(map)@.map_values(|c: Counter| c@), ego),
        final(map)@ == old(map)@.remove(ego),
{
    match map.remove(&ego) {
        Some(c) => c,
        None => Counter::new(),
    }
}

/// Whether every counter holds non-negative counts only.
pub open spec fn all_non_negative(hits: Map<NodeId, Map<NodeId, CounterValue>>) -> bool {
    forall|ego: NodeId| #[trigger] hits.contains_key(ego) ==> non_negative_counts(hits[ego])
}

impl WalkHits {
    /// Counters with no egos.
    pub fn new() -> (hits: Self)
        ensures
            hits@.pos == Map::<NodeId, Map<NodeId, CounterValue>>::empty(),
            hits@.neg == Map::<NodeId, Map<NodeId, CounterValue>>::empty(),
    {
        let hits = WalkHits { pos_hits: HashMap::new(), neg_hits: HashMap::new() };
        proof {
            assert(hits@.pos =~= Map::<NodeId, Map<NodeId, CounterValue>>::empty());
            assert(hits@.neg =~= Map::<NodeId, Map<NodeId, CounterValue>>::empty());
        }
        hits
    }

    /// Counts the walk `walk` of `ego`: one hit for each distinct node of its
    /// positive part and one negative hit for each distinct node of its negative
    /// part. An ego without counters gets them.
    pub fn record_walk(&mut self, ego: NodeId, walk: &RandomWalk)
        requires
            forall|k: NodeId| #[trigger]
                walk.positive_part().contains(k) ==> count_of(counts_for(old(self)@.pos, ego), k)
                    < CounterValue::MAX,
            forall|k: NodeId| #[trigger]
                walk.negative_part().contains(k) ==> count_of(counts_for(old(self)@.neg, ego), k)
                    < CounterValue::MAX,
        ensures
            final(self)@.pos == old(self)@.pos.insert(
                ego,
                incremented_unique(counts_for(old(self)@.pos, ego), walk.positive_part()),
            ),
            final(self)@.neg == old(self)@.neg.insert(
                ego,
                incremented_unique(counts_for(old(self)@.neg, ego), walk.negative_part()),
            ),
            non_negative_counts(final(self)@.pos[ego]),
            non_negative_counts(final(self)@.neg[ego]),
    {
        let ghost old_pos = self.pos_hits@;
        let ghost old_neg = self.neg_hits@;
        let mut pos = take_counter(&mut self.pos_hits, ego);
        pos.increment_unique_counts(walk.positive_subsegment());
        self.pos_hits.insert(ego, pos);
        let mut neg = take_counter(&mut self.neg_hits, ego);
        neg.increment_unique_counts(walk.negative_subsegment());
        self.neg_hits.insert(ego, neg);
        proof {
            assert(self.pos_hits@.map_values(|c: Counter| c@) =~= old_pos.map_values(
                |c: Counter| c@,
            ).insert(ego, pos@));
            assert(self.neg_hits@.map_values(|c: Counter| c@) =~= old_neg.map_values(
                |c: Counter| c@,
            ).insert(ego, neg@));
        }
    }

    /// Takes the walk `walk` of `ego` out of the counts: one hit less for each
    /// distinct node of its positive part and one negative hit less for each distinct
    /// node of its negative part, as far as they are positive. An ego without
    /// counters gets empty ones.
    pub fn revert_walk(&mut self, ego: NodeId, walk: &RandomWalk)
        ensures
            final(self)@.pos == old(self)@.pos.insert(
                ego,
                decremented_unique(counts_for(old(self)@.pos, ego), walk.positive_part()),
            ),
            final(self)@.neg == old(self)@.neg.insert(
                ego,
                decremented_unique(counts_for(old(self)@.neg, ego), walk.negative_part()),
            ),
            non_negative_counts(final(self)@.pos[ego]),
            non_negative_counts(final(self)@.neg[ego]),
    {
        let ghost old_pos = self.pos_hits@;
        let ghost old_neg = self.neg_hits@;
        let mut pos = take_counter(&mut self.pos_hits, ego);
        pos.decrement_unique_counts(walk.positive_subsegment());
        self.pos_hits.insert(ego, pos);
        let mut neg = take_counter(&mut self.neg_hits, ego);
        neg.decrement_unique_counts(walk.negative_subsegment());
        self.neg_hits.insert(ego, neg);
        proof {
            assert(self.pos_hits@.map_values(|c: Counter| c@) =~= old_pos.map_values(
                |c: Counter| c@,
            ).insert(ego, pos@));
            assert(self.neg_hits@.map_values(|c: Counter| c@) =~= old_neg.map_values(
                |c: Counter| c@,
            ).insert(ego, neg@));
        }
    }

    /// The positive counts of `ego`, if it has counters.
    pub fn positive_hits(&self, ego: NodeId) -> (counter: Option<&Counter>)
        ensures
            self@.pos.contains_key(ego) ==> (counter matches Some(c) && c@ == self@.pos[ego]),
            !self@.pos.contains_key(ego) ==> counter is None,
    {
        self.pos_hits.get(&ego)
    }

    /// The negative counts of `ego`, if it has counters.
    pub fn negative_hits(&self, ego: NodeId) -> (counter: Option<&Counter>)
        ensures
            self@.neg.contains_key(ego) ==> (counter matches Some(c) && c@ == self@.neg[ego]),
            !self@.neg.contains_key(ego) ==> counter is None,
    {
        self.neg_hits.get(&ego)
    }

    /// The positive counts of every ego.
    pub fn get_personal_hits(&self) -> (hits: &HashMap<NodeId, Counter>)
        ensures
            hits@.map_values(|c: Counter| c@) == self@.pos,
    {
        &self.pos_hits
    }

    /// Checks that the counters agree with the walks: for every ego and every node
    /// it counts, the visit index has an entry for the node, and the count is the
    /// number of walks that start at the ego and visit the node in their positive
    /// part (for the positive counts) or in their negative part (for the negative
    /// ones). Fails at the first count that does not.
    pub fn assert_counters_consistency_after_edge_addition(&self, walks: &WalkStorage) -> (result:
        Result<(), MeritRankError>)
        ensures
            result is Ok <==> hits_consistent(self@, walks@),
            result matches Err(e) ==> is_consistency_error(e),
    {
        let r = check_side(&self.pos_hits, walks, true);
        if r.is_err() {
            return r;
        }
        check_side(&self.neg_hits, walks, false)
    }
}

/// Taking a walk out of the counts right after counting it gives every node of its
/// ego the counts it had before, on both sides.
pub proof fn lemma_revert_undoes_record(h: HitsView, ego: NodeId, walk: RandomWalk, k: NodeId)
    requires
        all_non_negative(h.pos),
        all_non_negative(h.neg),
        forall|n: NodeId| #[trigger]
            walk.positive_part().contains(n) ==> count_of(counts_for(h.pos, ego), n)
                < CounterValue::MAX,
        forall|n: NodeId| #[trigger]
            walk.negative_part().contains(n) ==> count_of(counts_for(h.neg, ego), n)
                < CounterValue::MAX,
    ensures
        count_of(
            decremented_unique(
                incremented_unique(counts_for(h.pos, ego), walk.positive_part()),
                walk.positive_part(),
            ),
            k,
        ) == count_of(counts_for(h.pos, ego), k),
        count_of(
            decremented_unique(
                incremented_unique(counts_for(h.neg, ego), walk.negative_part()),
                walk.negative_part(),
            ),
            k,
        ) == count_of(counts_for(h.neg, ego), k),
{
    lemma_decrement_unique_undoes_increment_unique(counts_for(h.pos, ego), walk.positive_part());
    lemma_decrement_unique_undoes_increment_unique(counts_for(h.neg, ego), walk.negative_part());
}

} // verus!
