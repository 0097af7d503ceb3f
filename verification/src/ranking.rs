//! The walks of a ranking together with its hit counters, changed in the steps in
//! which the ranking builds and rebuilds walks: a walk is started (or taken apart
//! from an affected position), extended step by step by the caller, and then
//! recorded. Each step says what it keeps: from a state where the visit index and
//! the counters agree with the walks, starting or taking apart a walk leads to a
//! state where they agree for all other walks, extending keeps that, and recording
//! the walk brings back full agreement.
use vstd::prelude::*;

use crate::bookkeeping::{
    exact, exact_except, has_visit, lemma_drop_keeps_exact, lemma_exact_is_exact_except, recorded_exactly, lemma_extension_keeps_exact_except,
    lemma_free_walk_id_keeps_exact, lemma_record_after_extension_exact, lemma_split_keeps_exact,
    unused_walks_empty,
};
use crate::consistency::{
    hits_exact, hits_exact_except, lemma_change_of_uncounted_walk, lemma_free_walk_id_uncounted,
    lemma_record_counts_walk, lemma_record_visits_keeps_others, lemma_revert_uncounts_walk,
    lemma_split_keeps_others, lemma_walk_change_keeps_others, recorded_hits, reverted_hits,
};
use crate::counter::{count_of, Counter, CounterValue};
use crate::errors::internal_fatal;
use crate::errors::MeritRankError;
use crate::random_walk::{extended_negative_start, kept_negative_start, NodeId, RandomWalk, WalkView};
use crate::rank::{counts_for, negative_nodes, positive_nodes, HitsView, WalkHits};
use crate::walk_storage::{
    empty_walk, kept_walk, record_visits, split_visits, visits_without, walks_cleared,
    walks_starting_at, StorageView, WalkId, WalkStorage,
};

verus! {

/// The walks of a ranking and its hit counters.
#[derive(Clone)]
pub struct Ranking {
    walks: WalkStorage,
    hits: WalkHits,
}

/// The contents of a ranking.
pub struct RankingView {
    pub walks: StorageView,
    pub hits: HitsView,
}

impl View for Ranking {
    type V = RankingView;

    closed spec fn view(&self) -> RankingView {
        RankingView { walks: self.walks@, hits: self.hits@ }
    }
}

/// Whether the visit index and the counters agree with the walks, and the queue
/// of reusable ids holds empty walks, each once.
pub open spec fn in_agreement(r: RankingView) -> bool {
    &&& exact(r.walks)
    &&& unused_walks_empty(r.walks)
    &&& r.walks.unused.no_duplicates()
    &&& hits_exact(r.hits, r.walks)
}

/// Whether walk `w` is being built from position `start` on: the index records it
/// for its first `start` nodes and agrees for all other walks, the counters agree
/// for all other walks and leave `w` out, and `w` is not queued for reuse.
pub open spec fn rebuilding(r: RankingView, w: WalkId, start: int) -> bool {
    &&& exact_except(r.walks, w, start)
    &&& unused_walks_empty(r.walks)
    &&& r.walks.unused.no_duplicates()
    &&& !r.walks.unused.contains(w)
    &&& hits_exact_except(r.hits, r.walks, w)
}

/// The walks after walk `w` became `walk`.
pub open spec fn with_walk(v: StorageView, w: WalkId, walk: WalkView) -> StorageView {
    StorageView { walks: v.walks.update(w as int, walk), ..v }
}

/// Changing a walk that is being rebuilt, past its recorded prefix, keeps it being
/// rebuilt.
proof fn lemma_change_while_rebuilding(r: RankingView, w: WalkId, start: int, walk: WalkView)
    requires
        rebuilding(r, w, start),
        start <= walk.nodes.len(),
        walk.nodes.take(start) == r.walks.walks[w as int].nodes.take(start),
    ensures
        rebuilding(RankingView { walks: with_walk(r.walks, w, walk), ..r }, w, start),
{
    let v = r.walks;
    let v2 = with_walk(v, w, walk);
    lemma_extension_keeps_exact_except(v, w, start, walk);
    lemma_walk_change_keeps_others(v, w, walk);
    lemma_change_of_uncounted_walk(r.hits, v, v2, w);
    assert forall|i: int| 0 <= i < v2.unused.len() implies #[trigger] v2.unused[i] < v2.walks.len()
        && v2.walks[v2.unused[i] as int].nodes.len() == 0 by {
        assert(v.unused[i] != w);
    }
}

/// Walk `walk` cut at `cut` and continued with `segment`.
pub open spec fn rewalked(walk: WalkView, cut: int, segment: WalkView) -> WalkView {
    let kept = kept_walk(walk, cut);
    WalkView {
        nodes: kept.nodes + segment.nodes,
        negative_segment_start: extended_negative_start(
            kept.nodes.len(),
            kept.negative_segment_start,
            segment.negative_segment_start,
        ),
    }
}

/// Whether every node of `walk` can get one more hit of `ego` on its side.
pub open spec fn has_room(h: HitsView, ego: NodeId, walk: WalkView) -> bool {
    &&& forall|k: NodeId| #[trigger]
        positive_nodes(walk).contains(k) ==> count_of(counts_for(h.pos, ego), k) < CounterValue::MAX
    &&& forall|k: NodeId| #[trigger]
        negative_nodes(walk).contains(k) ==> count_of(counts_for(h.neg, ego), k) < CounterValue::MAX
}

/// What rebuilding walk `id` after its visit at `visit_pos`, continued with
/// `segment`, makes of a ranking (see [`Ranking::rewalk`]): an error for an unknown
/// or empty walk, or when a node of the rebuilt walk has no room for one more hit;
/// otherwise the ranking with the walk taken out of the counters, cut, continued,
/// recorded from the cut on and counted again.
pub open spec fn rewalk_step(r: RankingView, id: WalkId, visit_pos: usize, segment: WalkView) -> Result<
    RankingView,
    MeritRankError,
> {
    let v = r.walks;
    if id >= v.walks.len() {
        Err(MeritRankError::InternalFatalError(Some(internal_fatal::RANK_SET_EDGE_GET_WALK)))
    } else if v.walks[id as int].nodes.len() == 0 {
        Err(MeritRankError::InternalFatalError(Some(internal_fatal::RANK_SET_EDGE_FIRST_NODE)))
    } else {
        let walk = v.walks[id as int];
        let ego = walk.nodes[0];
        let cut = visit_pos + 1;
        let rebuilt = rewalked(walk, cut, segment);
        let hits = reverted_hits(r.hits, ego, walk);
        let visits = split_visits(
            v.visits,
            id,
            walk.nodes.subrange(0, cut),
            walk.nodes.subrange(cut, walk.nodes.len() as int),
        );
        if has_room(hits, ego, rebuilt) {
            Ok(
                RankingView {
                    walks: StorageView {
                        walks: v.walks.update(id as int, rebuilt),
                        visits: record_visits(visits, id, rebuilt.nodes, cut, rebuilt.nodes.len() as int),
                        ..v
                    },
                    hits: recorded_hits(hits, ego, rebuilt),
                },
            )
        } else {
            Err(MeritRankError::InternalFatalError(Some(internal_fatal::RANK_HIT_COUNT_OVERFLOW)))
        }
    }
}

/// What rebuilding the walks of `plan`, in order, makes of a ranking: the first
/// error of a step, or the ranking after the last step.
pub open spec fn rewalk_plan(r: RankingView, plan: Seq<(WalkId, usize, RandomWalk)>) -> Result<
    RankingView,
    MeritRankError,
>
    decreases plan.len(),
{
    if plan.len() == 0 {
        Ok(r)
    } else {
        match rewalk_plan(r, plan.drop_last()) {
            Err(e) => Err(e),
            Ok(before) => rewalk_step(before, plan.last().0, plan.last().1, plan.last().2@),
        }
    }
}

/// Once a prefix of a plan fails, the whole plan fails with the same error.
proof fn lemma_plan_error_stays(r: RankingView, plan: Seq<(WalkId, usize, RandomWalk)>, k: int)
    requires
        0 <= k <= plan.len(),
        rewalk_plan(r, plan.take(k)) is Err,
    ensures
        rewalk_plan(r, plan) == rewalk_plan(r, plan.take(k)),
    decreases plan.len() - k,
{
    if k < plan.len() {
        assert(plan.take(k + 1).drop_last() =~= plan.take(k));
        lemma_plan_error_stays(r, plan, k + 1);
    } else {
        assert(plan.take(k) =~= plan);
    }
}

/// Whether each of `nodes` can get one more count in `counter`.
fn counts_have_room(counter: &Counter, nodes: &[NodeId]) -> (ok: bool)
    ensures
        ok == forall|k: NodeId| #[trigger]
            nodes@.contains(k) ==> count_of(counter@, k) < CounterValue::MAX,
{
    let mut i: usize = 0;
    while i < nodes.len()
        invariant
            i <= nodes@.len(),
            forall|j: int| 0 <= j < i ==> count_of(counter@, #[trigger] nodes@[j]) < CounterValue::MAX,
        decreases nodes@.len() - i,
    {
        if counter.get_count(&nodes[i]) >= CounterValue::MAX {
            proof {
                assert(nodes@.contains(nodes@[i as int]));
            }
            return false;
        }
        i = i + 1;
    }
    proof {
        assert forall|k: NodeId| #[trigger] nodes@.contains(k) implies count_of(counter@, k)
            < CounterValue::MAX by {
            let j = choose|j: int| 0 <= j < nodes@.len() && nodes@[j] == k;
            assert(count_of(counter@, nodes@[j]) < CounterValue::MAX);
        }
    }
    true
}

impl Ranking {
    /// A ranking without walks and counters.
    pub fn new() -> (r: Self)
        ensures
            r@.walks.walks == Seq::<WalkView>::empty(),
            r@.walks.visits == Seq::<Map<WalkId, usize>>::empty(),
            r@.walks.unused == Seq::<WalkId>::empty(),
            r@.hits.pos == Map::<NodeId, Map<NodeId, CounterValue>>::empty(),
            r@.hits.neg == Map::<NodeId, Map<NodeId, CounterValue>>::empty(),
            in_agreement(r@),
    {
        let r = Ranking { walks: WalkStorage::new(), hits: WalkHits::new() };
        proof {
            assert(r@.walks.unused.no_duplicates());
        }
        r
    }

    /// The walks.
    pub fn walks(&self) -> (walks: &WalkStorage)
        ensures
            walks@ == self@.walks,
    {
        &self.walks
    }

    /// The hit counters.
    pub fn hits(&self) -> (hits: &WalkHits)
        ensures
            hits@ == self@.hits,
    {
        &self.hits
    }

    /// Starts a walk of `ego`: takes the next free walk id (see
    /// [`WalkStorage::get_next_free_walkid`]) and puts `ego` as the walk's first node.
    /// Fails when the id handed out names no stored walk.
    pub fn start_walk(&mut self, ego: NodeId) -> (result: Result<WalkId, MeritRankError>)
        requires
            ({
                let v = old(self)@.walks;
                v.unused.len() > 0 && v.unused[0] < v.walks.len() ==> v.walks[v.unused[0] as int].nodes.len()
                    == 0
            }),
        ensures
            ({
                let v = old(self)@.walks;
                let (free, after) = if v.unused.len() > 0 {
                    (v.unused[0], StorageView { unused: v.unused.drop_first(), ..v })
                } else {
                    (v.walks.len() as WalkId, StorageView { walks: v.walks.push(empty_walk()), ..v })
                };
                &&& free >= after.walks.len() ==> result == Err::<WalkId, MeritRankError>(
                    MeritRankError::InternalFatalError(
                        Some(internal_fatal::RANK_CALCULATE_GET_WALK_MUT),
                    ),
                ) && final(self)@.walks == after
                &&& free < after.walks.len() ==> result == Ok::<WalkId, MeritRankError>(free)
                    && final(self)@.walks == with_walk(
                    after,
                    free,
                    WalkView { nodes: seq![ego], ..after.walks[free as int] },
                )
                &&& final(self)@.hits == old(self)@.hits
            }),
            result matches Ok(id) ==> (in_agreement(old(self)@) ==> rebuilding(final(self)@, id, 0)),
    {
        let ghost r = self@;
        let ghost v = self.walks@;
        let id = self.walks.get_next_free_walkid();
        let ghost after = self.walks@;
        let walk = match self.walks.get_walk_mut(id) {
            Some(x) => x,
            None => {
                return Err(
                    MeritRankError::InternalFatalError(
                        Some(internal_fatal::RANK_CALCULATE_GET_WALK_MUT),
                    ),
                );
            },
        };
        walk.push(ego, true);
        proof {
            let w2 = WalkView { nodes: seq![ego], ..after.walks[id as int] };
            assert(self.walks@.walks[id as int].nodes =~= w2.nodes);
            assert(self@.walks =~= with_walk(after, id, w2));
            if in_agreement(r) {
                assert(v.unused.len() == 0 ==> v.walks.len() < usize::MAX);
                lemma_free_walk_id_keeps_exact(v);
                lemma_free_walk_id_uncounted(self.hits@, v);
                assert(!after.unused.contains(id)) by {
                    if v.unused.len() > 0 {
                        if after.unused.contains(id) {
                            let i = choose|i: int| 0 <= i < after.unused.len() && after.unused[i] == id;
                            assert(v.unused[i + 1] == v.unused[0]);
                        }
                    } else {
                        assert(after.unused.len() == 0);
                    }
                }
                assert(after.unused.no_duplicates());
                let r1 = RankingView { walks: after, hits: self.hits@ };
                assert(rebuilding(r1, id, 0));
                assert(w2.nodes.take(0) =~= after.walks[id as int].nodes.take(0));
                lemma_change_while_rebuilding(r1, id, 0, w2);
            }
        }
        Ok(id)
    }

    /// Walk `id`, if there is one.
    pub fn walk(&self, id: WalkId) -> (walk: Option<&RandomWalk>)
        ensures
            id < self@.walks.walks.len() ==> (walk matches Some(w) && w@ == self@.walks.walks[id as int]),
            id >= self@.walks.walks.len() ==> walk is None,
    {
        self.walks.get_walk(id)
    }

    /// Appends `segment` to walk `id`; a negative segment of `segment` becomes the
    /// walk's negative segment.
    pub fn extend_walk(&mut self, id: WalkId, segment: &RandomWalk)
        requires
            id < old(self)@.walks.walks.len(),
            !(old(self)@.walks.walks[id as int].negative_segment_start is Some
                && segment.negative_segment_start is Some),
            old(self)@.walks.walks[id as int].nodes.len() + segment.nodes@.len() <= usize::MAX,
            segment.negative_segment_start matches Some(start) ==> old(self)@.walks.walks[id as int].nodes.len()
                + start <= usize::MAX,
        ensures
            ({
                let old_walk = old(self)@.walks.walks[id as int];
                final(self)@.walks == with_walk(
                    old(self)@.walks,
                    id,
                    WalkView {
                        nodes: old_walk.nodes + segment.nodes@,
                        negative_segment_start: extended_negative_start(
                            old_walk.nodes.len(),
                            old_walk.negative_segment_start,
                            segment.negative_segment_start,
                        ),
                    },
                )
            }),
            final(self)@.hits == old(self)@.hits,
            forall|start: int| #[trigger]
                rebuilding(old(self)@, id, start) ==> rebuilding(final(self)@, id, start),
    {
        let ghost r = self@;
        let walk = self.walks.get_walk_mut(id).unwrap();
        walk.extend(segment);
        proof {
            let old_walk = r.walks.walks[id as int];
            let new_walk = self@.walks.walks[id as int];
            assert(self@.walks =~= with_walk(r.walks, id, new_walk));
            assert forall|start: int| #[trigger] rebuilding(r, id, start) implies rebuilding(
                self@,
                id,
                start,
            ) by {
                assert(new_walk.nodes.take(start) =~= old_walk.nodes.take(start));
                lemma_change_while_rebuilding(r, id, start, new_walk);
            }
        }
    }

    /// Appends a step to `node` to walk `id`; a negative step starts the walk's
    /// negative segment at the new node.
    pub fn push_step(&mut self, id: WalkId, node: NodeId, step_is_positive: bool)
        requires
            id < old(self)@.walks.walks.len(),
            old(self)@.walks.walks[id as int].nodes.len() > 0 ==> old(self)@.walks.walks[id as int].nodes.last()
                != node,
            !step_is_positive ==> old(self)@.walks.walks[id as int].negative_segment_start is None,
            old(self)@.walks.walks[id as int].nodes.len() < usize::MAX,
        ensures
            ({
                let old_walk = old(self)@.walks.walks[id as int];
                final(self)@.walks == with_walk(
                    old(self)@.walks,
                    id,
                    WalkView {
                        nodes: old_walk.nodes.push(node),
                        negative_segment_start: if step_is_positive {
                            old_walk.negative_segment_start
                        } else {
                            Some(old_walk.nodes.len() as usize)
                        },
                    },
                )
            }),
            final(self)@.hits == old(self)@.hits,
            forall|start: int| #[trigger]
                rebuilding(old(self)@, id, start) ==> rebuilding(final(self)@, id, start),
    {
        let ghost r = self@;
        let walk = self.walks.get_walk_mut(id).unwrap();
        walk.push(node, step_is_positive);
        proof {
            let old_walk = r.walks.walks[id as int];
            let new_walk = self@.walks.walks[id as int];
            assert(self@.walks =~= with_walk(r.walks, id, new_walk));
            assert forall|start: int| #[trigger] rebuilding(r, id, start) implies rebuilding(
                self@,
                id,
                start,
            ) by {
                assert(new_walk.nodes.take(start) =~= old_walk.nodes.take(start));
                lemma_change_while_rebuilding(r, id, start, new_walk);
            }
        }
    }

    /// Records walk `id` from position `start` on: its visits there go into the
    /// index, and the walk counts for its ego, its first node.
    pub fn finish_walk(&mut self, id: WalkId, start: usize)
        requires
            id < old(self)@.walks.walks.len(),
            old(self)@.walks.walks[id as int].nodes.len() > 0,
            forall|i: int|
                start <= i < old(self)@.walks.walks[id as int].nodes.len() ==> #[trigger] old(
                    self,
                )@.walks.walks[id as int].nodes[i] < usize::MAX,
            forall|k: NodeId| #[trigger]
                positive_nodes(old(self)@.walks.walks[id as int]).contains(k) ==> count_of(
                    counts_for(old(self)@.hits.pos, old(self)@.walks.walks[id as int].nodes[0]),
                    k,
                ) < CounterValue::MAX,
            forall|k: NodeId| #[trigger]
                negative_nodes(old(self)@.walks.walks[id as int]).contains(k) ==> count_of(
                    counts_for(old(self)@.hits.neg, old(self)@.walks.walks[id as int].nodes[0]),
                    k,
                ) < CounterValue::MAX,
        ensures
            ({
                let v = old(self)@.walks;
                let walk = v.walks[id as int];
                &&& final(self)@.walks == (StorageView {
                    visits: record_visits(v.visits, id, walk.nodes, start as int, walk.nodes.len() as int),
                    ..v
                })
                &&& final(self)@.hits == recorded_hits(old(self)@.hits, walk.nodes[0], walk)
            }),
            rebuilding(old(self)@, id, start as int) ==> in_agreement(final(self)@),
    {
        let ghost r = self@;
        let walk = self.walks.get_walk(id).unwrap();
        let ego = walk.nodes[0];
        proof {
            assert(walk.positive_part() == positive_nodes(walk@));
            assert(walk.negative_part() == negative_nodes(walk@));
            assert(walk.nodes@.len() == walk.nodes.len());
        }
        self.hits.record_walk(ego, walk);
        self.walks.update_walk_bookkeeping(id, start);
        proof {
            let v = r.walks;
            let w = v.walks[id as int];
            assert(self@.hits.pos == recorded_hits(r.hits, ego, w).pos);
            assert(self@.hits.neg == recorded_hits(r.hits, ego, w).neg);
            if rebuilding(r, id, start as int) {
                let v2 = self@.walks;
                lemma_record_after_extension_exact(v, id, start as int);
                lemma_record_visits_keeps_others(v, id, start as int);
                lemma_change_of_uncounted_walk(r.hits, v, v2, id);
                self.walks.lemma_visits_finite();
                lemma_record_counts_walk(r.hits, v2, id);
            }
        }
    }

    /// Takes walk `id` apart to rebuild it after its visit at `visit_pos`: the walk
    /// no longer counts for its ego, and it is cut after that visit, its cut-off
    /// part's own visits leaving the index. Gives the walk's ego; fails, changing
    /// nothing, for an unknown or empty walk.
    pub fn begin_rewalk(&mut self, id: WalkId, visit_pos: usize) -> (result: Result<
        NodeId,
        MeritRankError,
    >)
        requires
            id < old(self)@.walks.walks.len() && old(self)@.walks.walks[id as int].nodes.len() > 0
                ==> visit_pos < old(self)@.walks.walks[id as int].nodes.len(),
        ensures
            id >= old(self)@.walks.walks.len() ==> result == Err::<NodeId, MeritRankError>(
                MeritRankError::InternalFatalError(Some(internal_fatal::RANK_SET_EDGE_GET_WALK)),
            ) && final(self)@ == old(self)@,
            id < old(self)@.walks.walks.len() && old(self)@.walks.walks[id as int].nodes.len() == 0
                ==> result == Err::<NodeId, MeritRankError>(
                MeritRankError::InternalFatalError(Some(internal_fatal::RANK_SET_EDGE_FIRST_NODE)),
            ) && final(self)@ == old(self)@,
            id < old(self)@.walks.walks.len() && old(self)@.walks.walks[id as int].nodes.len() > 0
                ==> {
                let v = old(self)@.walks;
                let walk = v.walks[id as int];
                let cut = visit_pos + 1;
                &&& result == Ok::<NodeId, MeritRankError>(walk.nodes[0])
                &&& final(self)@.hits == reverted_hits(old(self)@.hits, walk.nodes[0], walk)
                &&& final(self)@.walks == (StorageView {
                    walks: v.walks.update(id as int, kept_walk(walk, cut)),
                    visits: split_visits(
                        v.visits,
                        id,
                        walk.nodes.subrange(0, cut),
                        walk.nodes.subrange(cut, walk.nodes.len() as int),
                    ),
                    ..v
                })
                &&& in_agreement(old(self)@) ==> rebuilding(final(self)@, id, cut)
            },
    {
        let ghost r = self@;
        proof {
            self.walks.lemma_visits_finite();
        }
        let walk = match self.walks.get_walk(id) {
            Some(x) => x,
            None => {
                return Err(
                    MeritRankError::InternalFatalError(Some(internal_fatal::RANK_SET_EDGE_GET_WALK)),
                );
            },
        };
        let ego = match walk.first_node() {
            Some(x) => x,
            None => {
                return Err(
                    MeritRankError::InternalFatalError(Some(internal_fatal::RANK_SET_EDGE_FIRST_NODE)),
                );
            },
        };
        proof {
            assert(walk.nodes@.len() == walk.nodes.len());
        }
        self.hits.revert_walk(ego, walk);
        let cut = visit_pos + 1;
        let split = self.walks.split_and_remove_from_bookkeeping(&id, cut);
        proof {
            let v = r.walks;
            let w = v.walks[id as int];
            assert(self@.hits.pos == reverted_hits(r.hits, ego, w).pos);
            assert(self@.hits.neg == reverted_hits(r.hits, ego, w).neg);
            if in_agreement(r) {
                let v2 = self@.walks;
                lemma_revert_uncounts_walk(r.hits, v, id);
                lemma_split_keeps_exact(v, id, cut as int);
                lemma_exact_is_exact_except(v2, id);
                lemma_split_keeps_others(v, id, cut as int);
                lemma_change_of_uncounted_walk(self@.hits, v, v2, id);
                assert(!v.unused.contains(id)) by {
                    if v.unused.contains(id) {
                        let i = choose|i: int| 0 <= i < v.unused.len() && v.unused[i] == id;
                        assert(v.walks[v.unused[i] as int].nodes.len() == 0);
                    }
                }
                assert forall|i: int| 0 <= i < v2.unused.len() implies #[trigger] v2.unused[i]
                    < v2.walks.len() && v2.walks[v2.unused[i] as int].nodes.len() == 0 by {
                    assert(v.unused[i] != id);
                }
            }
        }
        match split {
            Ok(()) => Ok(ego),
            Err(e) => Err(e),
        }
    }

    /// Rebuilds walk `id` after its visit at `visit_pos`: takes the walk out of its
    /// ego's counters, cuts it after that visit, continues it with `segment`, and
    /// records it again from the cut on. Fails, changing nothing, for an unknown or
    /// empty walk; fails when a node of the rebuilt walk has no room for one more hit
    /// of the ego (the walk is then left being rebuilt).
    pub fn rewalk(&mut self, id: WalkId, visit_pos: usize, segment: &RandomWalk) -> (result: Result<
        (),
        MeritRankError,
    >)
        requires
            id < old(self)@.walks.walks.len() && old(self)@.walks.walks[id as int].nodes.len() > 0
                ==> {
                let walk = old(self)@.walks.walks[id as int];
                let kept = kept_walk(walk, visit_pos + 1);
                &&& visit_pos < walk.nodes.len()
                &&& !(kept.negative_segment_start is Some && segment.negative_segment_start is Some)
                &&& kept.nodes.len() + segment.nodes@.len() <= usize::MAX
                &&& segment.negative_segment_start matches Some(start) ==> kept.nodes.len() + start
                    <= usize::MAX
            },
            forall|i: int| 0 <= i < segment.nodes@.len() ==> #[trigger] segment.nodes@[i] < usize::MAX,
        ensures
            id >= old(self)@.walks.walks.len() ==> result == Err::<(), MeritRankError>(
                MeritRankError::InternalFatalError(Some(internal_fatal::RANK_SET_EDGE_GET_WALK)),
            ) && final(self)@ == old(self)@,
            id < old(self)@.walks.walks.len() && old(self)@.walks.walks[id as int].nodes.len() == 0
                ==> result == Err::<(), MeritRankError>(
                MeritRankError::InternalFatalError(Some(internal_fatal::RANK_SET_EDGE_FIRST_NODE)),
            ) && final(self)@ == old(self)@,
            id < old(self)@.walks.walks.len() && old(self)@.walks.walks[id as int].nodes.len() > 0
                ==> {
                let v = old(self)@.walks;
                let walk = v.walks[id as int];
                let ego = walk.nodes[0];
                let cut = visit_pos + 1;
                let rebuilt = rewalked(walk, cut, segment@);
                let hits = reverted_hits(old(self)@.hits, ego, walk);
                let visits = split_visits(
                    v.visits,
                    id,
                    walk.nodes.subrange(0, cut),
                    walk.nodes.subrange(cut, walk.nodes.len() as int),
                );
                &&& result is Ok <==> has_room(hits, ego, rebuilt)
                &&& result is Err ==> result == Err::<(), MeritRankError>(
                    MeritRankError::InternalFatalError(Some(internal_fatal::RANK_HIT_COUNT_OVERFLOW)),
                )
                &&& result is Ok ==> {
                    &&& final(self)@.walks == (StorageView {
                        walks: v.walks.update(id as int, rebuilt),
                        visits: record_visits(visits, id, rebuilt.nodes, cut, rebuilt.nodes.len() as int),
                        ..v
                    })
                    &&& final(self)@.hits == recorded_hits(hits, ego, rebuilt)
                    &&& in_agreement(old(self)@) ==> in_agreement(final(self)@)
                }
            },
    {
        let ghost r = self@;
        let ego = match self.begin_rewalk(id, visit_pos) {
            Ok(ego) => ego,
            Err(e) => {
                return Err(e);
            },
        };
        let ghost r1 = self@;
        let cut = visit_pos + 1;
        self.extend_walk(id, segment);
        let ghost r2 = self@;
        let walk = self.walks.get_walk(id).unwrap();
        proof {
            let w = r.walks.walks[id as int];
            assert(walk@ =~= rewalked(w, cut as int, segment@));
            assert(walk.positive_part() == positive_nodes(walk@));
            assert(walk.negative_part() == negative_nodes(walk@));
        }
        let positive_room = match self.hits.positive_hits(ego) {
            Some(c) => counts_have_room(c, walk.positive_subsegment()),
            None => true,
        };
        let negative_room = match self.hits.negative_hits(ego) {
            Some(c) => counts_have_room(c, walk.negative_subsegment()),
            None => true,
        };
        if !(positive_room && negative_room) {
            return Err(
                MeritRankError::InternalFatalError(Some(internal_fatal::RANK_HIT_COUNT_OVERFLOW)),
            );
        }
        proof {
            let w = r.walks.walks[id as int];
            let rebuilt = rewalked(w, cut as int, segment@);
            assert forall|i: int| cut <= i < rebuilt.nodes.len() implies #[trigger] rebuilt.nodes[i]
                < usize::MAX by {
                assert(rebuilt.nodes[i] == segment.nodes@[i - cut]);
            }
            assert(r2.walks.walks[id as int] == rebuilt);
            assert(rebuilt.nodes[0] == ego);
        }
        self.finish_walk(id, cut);
        proof {
            let w = r.walks.walks[id as int];
            let rebuilt = rewalked(w, cut as int, segment@);
            assert(self@.walks.walks =~= r.walks.walks.update(id as int, rebuilt));
        }
        Ok(())
    }

    /// Rebuilds each walk of `plan` (see [`Ranking::rewalk`]), in order: each entry
    /// names a walk, the position of its visit after which it is cut, and the
    /// segment that continues it. The walks are distinct. Stops at the first
    /// failure, with its error; the outcome is that of [`rewalk_plan`]. When all succeed, every planned walk is rebuilt, the other walks stay
    /// as they were, and a ranking whose index and counters agreed with its walks
    /// agrees with them again.
    pub fn rewalk_all(&mut self, plan: &Vec<(WalkId, usize, RandomWalk)>) -> (result: Result<
        (),
        MeritRankError,
    >)
        requires
            forall|i: int, j: int|
                0 <= i < j < plan@.len() ==> (#[trigger] plan@[i]).0 != (#[trigger] plan@[j]).0,
            forall|i: int|
                0 <= i < plan@.len() ==> {
                    let (id, visit_pos, segment) = #[trigger] plan@[i];
                    &&& id < old(self)@.walks.walks.len() && old(self)@.walks.walks[id as int].nodes.len() > 0
                        ==> {
                        let walk = old(self)@.walks.walks[id as int];
                        let kept = kept_walk(walk, visit_pos + 1);
                        &&& visit_pos < walk.nodes.len()
                        &&& !(kept.negative_segment_start is Some
                            && segment.negative_segment_start is Some)
                        &&& kept.nodes.len() + segment.nodes@.len() <= usize::MAX
                        &&& segment.negative_segment_start matches Some(start) ==> kept.nodes.len()
                            + start <= usize::MAX
                    }
                    &&& forall|k: int|
                        0 <= k < segment.nodes@.len() ==> #[trigger] segment.nodes@[k] < usize::MAX
                },
        ensures
            match rewalk_plan(old(self)@, plan@) {
                Ok(after) => result is Ok && final(self)@.walks == after.walks && final(self)@.hits
                    == after.hits,
                Err(e) => result == Err::<(), MeritRankError>(e),
            },
            result is Err ==> {
                ||| result == Err::<(), MeritRankError>(
                    MeritRankError::InternalFatalError(Some(internal_fatal::RANK_SET_EDGE_GET_WALK)),
                )
                ||| result == Err::<(), MeritRankError>(
                    MeritRankError::InternalFatalError(Some(internal_fatal::RANK_SET_EDGE_FIRST_NODE)),
                )
                ||| result == Err::<(), MeritRankError>(
                    MeritRankError::InternalFatalError(Some(internal_fatal::RANK_HIT_COUNT_OVERFLOW)),
                )
            },
            result is Ok ==> {
                &&& final(self)@.walks.walks.len() == old(self)@.walks.walks.len()
                &&& forall|i: int|
                    0 <= i < plan@.len() ==> {
                        let (id, visit_pos, segment) = #[trigger] plan@[i];
                        final(self)@.walks.walks[id as int] == rewalked(
                            old(self)@.walks.walks[id as int],
                            visit_pos + 1,
                            segment@,
                        )
                    }
                &&& forall|w: int|
                    0 <= w < old(self)@.walks.walks.len() && (forall|i: int|
                        0 <= i < plan@.len() ==> (#[trigger] plan@[i]).0 != w)
                        ==> #[trigger] final(self)@.walks.walks[w] == old(self)@.walks.walks[w]
                &&& in_agreement(old(self)@) ==> in_agreement(final(self)@)
            },
    {
        let ghost start = self@;
        proof {
            assert(plan@.take(0) =~= Seq::<(WalkId, usize, RandomWalk)>::empty());
        }
        let mut i: usize = 0;
        while i < plan.len()
            invariant
                i <= plan@.len(),
                self@.walks.walks.len() == start.walks.walks.len(),
                forall|a: int, b: int|
                    0 <= a < b < plan@.len() ==> (#[trigger] plan@[a]).0 != (#[trigger] plan@[b]).0,
                forall|k: int|
                    0 <= k < plan@.len() ==> {
                        let (id, visit_pos, segment) = #[trigger] plan@[k];
                        &&& id < start.walks.walks.len() && start.walks.walks[id as int].nodes.len() > 0
                            ==> {
                            let walk = start.walks.walks[id as int];
                            let kept = kept_walk(walk, visit_pos + 1);
                            &&& visit_pos < walk.nodes.len()
                            &&& !(kept.negative_segment_start is Some
                                && segment.negative_segment_start is Some)
                            &&& kept.nodes.len() + segment.nodes@.len() <= usize::MAX
                            &&& segment.negative_segment_start matches Some(s) ==> kept.nodes.len()
                                + s <= usize::MAX
                        }
                        &&& forall|m: int|
                            0 <= m < segment.nodes@.len() ==> #[trigger] segment.nodes@[m] < usize::MAX
                    },
                forall|k: int| 0 <= k < i ==> (#[trigger] plan@[k]).0 < start.walks.walks.len(),
                forall|k: int|
                    0 <= k < i ==> {
                        let (id, visit_pos, segment) = #[trigger] plan@[k];
                        self@.walks.walks[id as int] == rewalked(
                            start.walks.walks[id as int],
                            visit_pos + 1,
                            segment@,
                        )
                    },
                forall|w: int|
                    0 <= w < start.walks.walks.len() && (forall|k: int|
                        0 <= k < i ==> (#[trigger] plan@[k]).0 != w) ==> #[trigger] self@.walks.walks[w]
                        == start.walks.walks[w],
                in_agreement(start) ==> in_agreement(self@),
                start == old(self)@,
                rewalk_plan(start, plan@.take(i as int)) matches Ok(now) && self@.walks == now.walks
                    && self@.hits == now.hits,
            decreases plan@.len() - i,
        {
            let id = plan[i].0;
            let visit_pos = plan[i].1;
            let ghost before = self@;
            proof {
                let e = plan@[i as int];
                if id < start.walks.walks.len() {
                    assert forall|k: int| 0 <= k < i implies (#[trigger] plan@[k]).0 != id by {
                        assert(plan@[k].0 != plan@[i as int].0);
                    }
                    assert(self@.walks.walks[id as int] == start.walks.walks[id as int]);
                }
            }
            let outcome = self.rewalk(id, visit_pos, &plan[i].2);
            proof {
                assert(plan@.take(i + 1).drop_last() =~= plan@.take(i as int));
                assert(plan@.take(i + 1).last() == plan@[i as int]);
                let now = rewalk_plan(start, plan@.take(i as int))->Ok_0;
                assert(before.walks == now.walks && before.hits == now.hits);
                assert(before == now);
                let stepped = rewalk_step(before, id, visit_pos, plan@[i as int].2@);
                assert(rewalk_plan(start, plan@.take(i + 1)) == stepped);
                match stepped {
                    Ok(after) => {
                        assert(outcome is Ok);
                        assert(self@.walks == after.walks);
                        assert(self@.hits == after.hits);
                    },
                    Err(e) => {
                        assert(outcome == Err::<(), MeritRankError>(e));
                        lemma_plan_error_stays(start, plan@, i + 1);
                    },
                }
            }
            match outcome {
                Ok(()) => {},
                Err(e) => {
                    proof {
                        let stepped = rewalk_step(before, id, visit_pos, plan@[i as int].2@);
                        assert(stepped == Err::<RankingView, MeritRankError>(e));
                        lemma_plan_error_stays(start, plan@, i + 1);
                        assert(rewalk_plan(start, plan@) == Err::<RankingView, MeritRankError>(e));
                    }
                    return Err(e);
                },
            }
            proof {
                assert(id < before.walks.walks.len());
                assert(before.walks.walks[id as int].nodes.len() > 0);
                assert(before.walks.walks[id as int] == start.walks.walks[id as int]);
                assert(self@.walks.walks == before.walks.walks.update(
                    id as int,
                    rewalked(before.walks.walks[id as int], visit_pos + 1, plan@[i as int].2@),
                ));
                assert forall|k: int| 0 <= k < i + 1 implies {
                    let (kid, kpos, kseg) = #[trigger] plan@[k];
                    self@.walks.walks[kid as int] == rewalked(start.walks.walks[kid as int], kpos + 1, kseg@)
                } by {
                    if k < i {
                        assert(plan@[k].0 != plan@[i as int].0);
                        assert(plan@[k].0 < start.walks.walks.len());
                        assert(self@.walks.walks[plan@[k].0 as int] == before.walks.walks[plan@[k].0 as int]);
                    } else {
                        assert(plan@[k] == plan@[i as int]);
                    }
                }
                assert forall|w: int|
                    0 <= w < start.walks.walks.len() && (forall|k: int|
                        0 <= k < i + 1 ==> (#[trigger] plan@[k]).0 != w) implies #[trigger] self@.walks.walks[w]
                    == start.walks.walks[w] by {
                    assert(plan@[i as int].0 != w);
                    assert forall|k: int| 0 <= k < i implies (#[trigger] plan@[k]).0 != w by {}
                }
            }
            i = i + 1;
        }
        proof {
            assert(plan@.take(plan@.len() as int) =~= plan@);
        }
        Ok(())
    }

    /// Drops the walks that start at `node` (see
    /// [`WalkStorage::drop_walks_from_node`]); the counters stay as they are. The
    /// visit index stays exact and the reuse queue keeps empty walks, each once.
    pub fn drop_walks_from_node(&mut self, node: NodeId) -> (result: Result<(), MeritRankError>)
        ensures
            result is Ok <==> forall|w: WalkId| #[trigger] walks_starting_at(old(self)@.walks.visits, node).contains(w)
                ==> w < old(self)@.walks.walks.len(),
            result is Err ==> result == Err::<(), MeritRankError>(
                MeritRankError::InternalFatalError(Some(internal_fatal::WALK_STORAGE_DROP_WALKS_GET_MUT)),
            ),
            result is Ok ==> {
                let v = old(self)@.walks;
                let gone = walks_starting_at(v.visits, node);
                &&& final(self)@.walks.walks == walks_cleared(v.walks, gone)
                &&& final(self)@.walks.visits == visits_without(v.visits, v.walks, gone)
                &&& exists|order: Seq<WalkId>| #![trigger order.to_set()]
                    order.no_duplicates() && order.to_set() == gone && final(self)@.walks.unused
                        == v.unused + order
            },
            final(self)@.hits == old(self)@.hits,
            result is Ok && exact(old(self)@.walks) && unused_walks_empty(old(self)@.walks)
                && old(self)@.walks.unused.no_duplicates() ==> {
                &&& exact(final(self)@.walks)
                &&& unused_walks_empty(final(self)@.walks)
                &&& final(self)@.walks.unused.no_duplicates()
            },
    {
        let ghost v = self@.walks;
        let result = self.walks.drop_walks_from_node(node);
        proof {
            if result is Ok && exact(v) && unused_walks_empty(v) && v.unused.no_duplicates() {
                let gone = walks_starting_at(v.visits, node);
                let order = choose|order: Seq<WalkId>|
                    #![trigger order.to_set()]
                    order.no_duplicates() && order.to_set() == gone && self@.walks.unused == v.unused
                        + order;
                lemma_drop_keeps_exact(v, node, order);
                assert forall|i: int, j: int|
                    0 <= i < j < self@.walks.unused.len() implies self@.walks.unused[i]
                    != self@.walks.unused[j] by {
                    let u = self@.walks.unused;
                    if j < v.unused.len() {
                    } else if i >= v.unused.len() {
                        assert(u[i] == order[i - v.unused.len()]);
                        assert(u[j] == order[j - v.unused.len()]);
                    } else {
                        let w = order[j - v.unused.len()];
                        assert(u[j] == w);
                        assert(order.to_set().contains(w));
                        assert(gone.contains(w));
                        assert(has_visit(v, node, w));
                        assert(recorded_exactly(v, w, v.walks[w as int].nodes.len() as int));
                        if v.walks[w as int].nodes.len() == 0 {
                            assert(v.walks[w as int].nodes.take(0) =~= Seq::<NodeId>::empty());
                        }
                        assert(u[i] == v.unused[i]);
                        assert(v.walks[v.unused[i] as int].nodes.len() == 0);
                    }
                }
            }
        }
        result
    }
}

} // verus!
