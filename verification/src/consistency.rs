//! When the hit counters agree with the stored walks, and which steps of a ranking
//! keep them so.
//!
//! The counters of a side are exact when, for every ego and every node of the visit
//! index, the count (zero without an entry) is the number of the ego's walks that
//! visit the node on that side, and only nodes of the index have entries. While one
//! walk is being rebuilt, its hits are out of the counters: they are exact except for
//! that walk. Taking a walk's hits out, changing that walk and its visits alone, and
//! counting it again lead from exact counters to exact counters.
use vstd::prelude::*;

use crate::bookkeeping::{exact, has_visit, is_first_visit, recorded_exactly};
use crate::counter::{count_of, decremented_unique, incremented_unique, CounterValue};
use crate::random_walk::{positive_end, NodeId, WalkView};
use crate::rank::{
    counts_as_hit, counts_for, ego_consistent, hit_walks, hits_consistent, negative_nodes,
    positive_nodes, HitsView,
};
use crate::bookkeeping::{lemma_free_walk_id_keeps_exact, records_stored_walks_only, unused_walks_empty};
use crate::walk_storage::{empty_walk, kept_walk, record_visit, record_visits, split_visits, StorageView, WalkId};

verus! {

/// The nodes of a walk that count on one side.
pub open spec fn side_nodes(walk: WalkView, positive: bool) -> Seq<NodeId> {
    if positive {
        positive_nodes(walk)
    } else {
        negative_nodes(walk)
    }
}

/// Whether every visit map of the index is finite, as the maps of a storage are.
pub open spec fn visits_finite(v: StorageView) -> bool {
    forall|n: int| 0 <= n < v.visits.len() ==> #[trigger] v.visits[n].dom().finite()
}

/// Whether the counters of one side are exact for the walks, leaving out walk
/// `skip` when `skipping` holds.
pub open spec fn side_exact_but(
    hits: Map<NodeId, Map<NodeId, CounterValue>>,
    v: StorageView,
    positive: bool,
    skipping: bool,
    skip: WalkId,
) -> bool {
    forall|ego: NodeId, peer: NodeId|
        #![trigger count_of(counts_for(hits, ego), peer)]
        #![trigger counts_for(hits, ego).contains_key(peer)]
        (counts_for(hits, ego).contains_key(peer) ==> peer < v.visits.len()) && (peer
            < v.visits.len() ==> count_of(counts_for(hits, ego), peer) == (if skipping {
            hit_walks(v, peer, ego, positive).remove(skip)
        } else {
            hit_walks(v, peer, ego, positive)
        }).len())
}

/// Whether the counters are exact for the walks on both sides.
pub open spec fn hits_exact(h: HitsView, v: StorageView) -> bool {
    side_exact_but(h.pos, v, true, false, 0) && side_exact_but(h.neg, v, false, false, 0)
}

/// Whether the counters are exact for all walks but `w`, whose hits they leave out.
pub open spec fn hits_exact_except(h: HitsView, v: StorageView, w: WalkId) -> bool {
    side_exact_but(h.pos, v, true, true, w) && side_exact_but(h.neg, v, false, true, w)
}

/// Whether `v2` differs from `v` in walk `w` and its visits alone: every other
/// stored walk stays, every other walk's visits and their positions stay, and the
/// index does not shrink.
pub open spec fn others_kept(v: StorageView, v2: StorageView, w: WalkId) -> bool {
    &&& v.visits.len() <= v2.visits.len()
    &&& forall|x: WalkId|
        x != w && x < v.walks.len() ==> x < v2.walks.len() && #[trigger] v2.walks[x as int]
            == v.walks[x as int]
    &&& forall|n: NodeId, x: WalkId|
        #![trigger has_visit(v2, n, x)]
        #![trigger has_visit(v, n, x)]
        x != w ==> has_visit(v2, n, x) == has_visit(v, n, x) && (has_visit(v, n, x) ==> x
            < v.walks.len() && v2.visits[n as int][x] == v.visits[n as int][x])
}

/// The counters after the walk `walk` of `ego` was counted.
pub open spec fn recorded_hits(h: HitsView, ego: NodeId, walk: WalkView) -> HitsView {
    HitsView {
        pos: h.pos.insert(ego, incremented_unique(counts_for(h.pos, ego), positive_nodes(walk))),
        neg: h.neg.insert(ego, incremented_unique(counts_for(h.neg, ego), negative_nodes(walk))),
    }
}

/// The counters after the walk `walk` of `ego` was taken out of them.
pub open spec fn reverted_hits(h: HitsView, ego: NodeId, walk: WalkView) -> HitsView {
    HitsView {
        pos: h.pos.insert(ego, decremented_unique(counts_for(h.pos, ego), positive_nodes(walk))),
        neg: h.neg.insert(ego, decremented_unique(counts_for(h.neg, ego), negative_nodes(walk))),
    }
}

/// In an exact index, a stored walk that starts at `ego` counts as a hit of a node
/// of the index exactly when it visits the node on that side, and it never counts
/// for another ego.
proof fn lemma_walk_hit(v: StorageView, w: WalkId, peer: NodeId, positive: bool)
    requires
        exact(v),
        w < v.walks.len(),
        v.walks[w as int].nodes.len() > 0,
        peer < v.visits.len(),
    ensures
        hit_walks(v, peer, v.walks[w as int].nodes[0], positive).contains(w) <==> side_nodes(
            v.walks[w as int],
            positive,
        ).contains(peer),
        forall|ego: NodeId|
            ego != v.walks[w as int].nodes[0] ==> !#[trigger] hit_walks(v, peer, ego, positive).contains(
                w,
            ),
{
    let walk = v.walks[w as int];
    let nodes = walk.nodes;
    let ego = nodes[0];
    let pe = positive_end(nodes.len(), walk.negative_segment_start) as int;
    assert(recorded_exactly(v, w, nodes.len() as int));
    assert(nodes.take(nodes.len() as int) =~= nodes);
    assert(has_visit(v, peer, w) <==> nodes.contains(peer));
    if has_visit(v, peer, w) {
        let p = v.visits[peer as int][w] as int;
        assert(is_first_visit(nodes, peer, p));
        if positive {
            if positive_nodes(walk).contains(peer) {
                let i = choose|i: int| 0 <= i < positive_nodes(walk).len() && positive_nodes(walk)[i] == peer;
                assert(nodes[i] == peer);
                assert(p <= i);
            }
            if p < pe {
                assert(positive_nodes(walk)[p] == peer);
            }
            assert(counts_as_hit(v, peer, ego, true, w) <==> p < pe);
        } else {
            assert(counts_as_hit(v, peer, ego, false, w) <==> negative_nodes(walk).contains(peer));
        }
    } else {
        if side_nodes(walk, positive).contains(peer) {
            let i = choose|i: int| 0 <= i < side_nodes(walk, positive).len() && side_nodes(walk, positive)[i] == peer;
            if positive {
                assert(nodes[i] == peer);
            } else {
                assert(nodes[pe + i] == peer);
            }
        }
    }
}

/// Exact counters pass the consistency check.
pub proof fn lemma_exact_hits_are_consistent(h: HitsView, v: StorageView)
    requires
        hits_exact(h, v),
    ensures
        hits_consistent(h, v),
{
    assert forall|ego: NodeId| #[trigger] h.pos.contains_key(ego) implies ego_consistent(
        h.pos[ego],
        v,
        ego,
        true,
    ) by {
        assert forall|peer: NodeId| #[trigger] h.pos[ego].contains_key(peer) implies peer
            < v.visits.len() && h.pos[ego][peer] == hit_walks(v, peer, ego, true).len() by {
            assert(counts_for(h.pos, ego).contains_key(peer));
            assert(count_of(counts_for(h.pos, ego), peer) == h.pos[ego][peer]);
        }
    }
    assert forall|ego: NodeId| #[trigger] h.neg.contains_key(ego) implies ego_consistent(
        h.neg[ego],
        v,
        ego,
        false,
    ) by {
        assert forall|peer: NodeId| #[trigger] h.neg[ego].contains_key(peer) implies peer
            < v.visits.len() && h.neg[ego][peer] == hit_walks(v, peer, ego, false).len() by {
            assert(counts_for(h.neg, ego).contains_key(peer));
            assert(count_of(counts_for(h.neg, ego), peer) == h.neg[ego][peer]);
        }
    }
}

/// A finite set has one element fewer without one of its elements.
proof fn lemma_remove_len(s: Set<WalkId>, x: WalkId)
    requires
        s.finite(),
    ensures
        s.contains(x) ==> s.remove(x).len() + 1 == s.len(),
        !s.contains(x) ==> s.remove(x) == s,
{
    if !s.contains(x) {
        assert(s.remove(x) =~= s);
    }
}

/// The walks that count as hits of a node of the index form a finite set.
proof fn lemma_hit_walks_finite(v: StorageView, peer: NodeId, ego: NodeId, positive: bool)
    requires
        visits_finite(v),
        peer < v.visits.len(),
    ensures
        hit_walks(v, peer, ego, positive).finite(),
{
    assert(v.visits[peer as int].dom().finite());
    vstd::set_lib::lemma_set_subset_finite(
        v.visits[peer as int].dom(),
        hit_walks(v, peer, ego, positive),
    );
}

/// Counting a walk whose hits the counters leave out makes one side exact.
proof fn lemma_record_side(
    hits: Map<NodeId, Map<NodeId, CounterValue>>,
    v: StorageView,
    w: WalkId,
    positive: bool,
)
    requires
        exact(v),
        visits_finite(v),
        w < v.walks.len(),
        v.walks[w as int].nodes.len() > 0,
        side_exact_but(hits, v, positive, true, w),
        forall|k: NodeId| #[trigger]
            side_nodes(v.walks[w as int], positive).contains(k) ==> count_of(
                counts_for(hits, v.walks[w as int].nodes[0]),
                k,
            ) < CounterValue::MAX,
    ensures
        side_exact_but(
            hits.insert(
                v.walks[w as int].nodes[0],
                incremented_unique(
                    counts_for(hits, v.walks[w as int].nodes[0]),
                    side_nodes(v.walks[w as int], positive),
                ),
            ),
            v,
            positive,
            false,
            0,
        ),
{
    let walk = v.walks[w as int];
    let ego = walk.nodes[0];
    let part = side_nodes(walk, positive);
    let old = counts_for(hits, ego);
    let inc = incremented_unique(old, part);
    let hits2 = hits.insert(ego, inc);
    assert(recorded_exactly(v, w, walk.nodes.len() as int));
    assert(walk.nodes.take(walk.nodes.len() as int) =~= walk.nodes);
    assert forall|e: NodeId, peer: NodeId|
        #![trigger count_of(counts_for(hits2, e), peer)]
        #![trigger counts_for(hits2, e).contains_key(peer)]
        (counts_for(hits2, e).contains_key(peer) ==> peer < v.visits.len()) && (peer
            < v.visits.len() ==> count_of(counts_for(hits2, e), peer) == hit_walks(
            v,
            peer,
            e,
            positive,
        ).len()) by {
        if counts_for(hits2, e).contains_key(peer) {
            if e == ego && !old.contains_key(peer) {
                assert(part.contains(peer));
                let i = choose|i: int| 0 <= i < part.len() && part[i] == peer;
                if positive {
                    assert(walk.nodes[i] == peer);
                } else {
                    assert(walk.nodes[positive_end(walk.nodes.len(), walk.negative_segment_start)
                        + i] == peer);
                }
                assert(has_visit(v, peer, w));
            } else {
                assert(counts_for(hits, e).contains_key(peer));
            }
        }
        if peer < v.visits.len() {
            lemma_walk_hit(v, w, peer, positive);
            lemma_hit_walks_finite(v, peer, e, positive);
            lemma_remove_len(hit_walks(v, peer, e, positive), w);
            assert(count_of(counts_for(hits, e), peer) == hit_walks(v, peer, e, positive).remove(
                w,
            ).len());
        }
    }
}

/// Taking out the hits of a counted walk leaves one side exact except for it.
proof fn lemma_revert_side(
    hits: Map<NodeId, Map<NodeId, CounterValue>>,
    v: StorageView,
    w: WalkId,
    positive: bool,
)
    requires
        exact(v),
        visits_finite(v),
        w < v.walks.len(),
        v.walks[w as int].nodes.len() > 0,
        side_exact_but(hits, v, positive, false, 0),
    ensures
        side_exact_but(
            hits.insert(
                v.walks[w as int].nodes[0],
                decremented_unique(
                    counts_for(hits, v.walks[w as int].nodes[0]),
                    side_nodes(v.walks[w as int], positive),
                ),
            ),
            v,
            positive,
            true,
            w,
        ),
{
    let walk = v.walks[w as int];
    let ego = walk.nodes[0];
    let part = side_nodes(walk, positive);
    let old = counts_for(hits, ego);
    let dec = decremented_unique(old, part);
    let hits2 = hits.insert(ego, dec);
    assert forall|e: NodeId, peer: NodeId|
        #![trigger count_of(counts_for(hits2, e), peer)]
        #![trigger counts_for(hits2, e).contains_key(peer)]
        (counts_for(hits2, e).contains_key(peer) ==> peer < v.visits.len()) && (peer
            < v.visits.len() ==> count_of(counts_for(hits2, e), peer) == hit_walks(
            v,
            peer,
            e,
            positive,
        ).remove(w).len()) by {
        if counts_for(hits2, e).contains_key(peer) {
            assert(counts_for(hits, e).contains_key(peer));
        }
        if peer < v.visits.len() {
            lemma_walk_hit(v, w, peer, positive);
            lemma_hit_walks_finite(v, peer, e, positive);
            lemma_remove_len(hit_walks(v, peer, e, positive), w);
            assert(count_of(counts_for(hits, e), peer) == hit_walks(v, peer, e, positive).len());
            if e == ego && part.contains(peer) {
                assert(old.contains_key(peer));
            }
        }
    }
}

/// Changes to walk `w` and its visits alone keep one side exact except for `w`:
/// the other walks, their visits and the visit positions stay, and the index only
/// grows.
proof fn lemma_change_side(
    hits: Map<NodeId, Map<NodeId, CounterValue>>,
    v: StorageView,
    v2: StorageView,
    w: WalkId,
    positive: bool,
)
    requires
        side_exact_but(hits, v, positive, true, w),
        others_kept(v, v2, w),
    ensures
        side_exact_but(hits, v2, positive, true, w),
{
    assert forall|e: NodeId, peer: NodeId|
        (counts_for(hits, e).contains_key(peer) ==> peer < v2.visits.len()) && (peer
            < v2.visits.len() ==> count_of(counts_for(hits, e), peer) == hit_walks(
            v2,
            peer,
            e,
            positive,
        ).remove(w).len()) by {
        if counts_for(hits, e).contains_key(peer) {
        }
        if peer < v2.visits.len() {
            if peer < v.visits.len() {
                assert(hit_walks(v2, peer, e, positive).remove(w) =~= hit_walks(
                    v,
                    peer,
                    e,
                    positive,
                ).remove(w)) by {
                    assert forall|x: WalkId| #[trigger] hit_walks(v2, peer, e, positive).remove(
                        w,
                    ).contains(x) <==> hit_walks(v, peer, e, positive).remove(w).contains(x) by {
                        if x != w {
                            assert(has_visit(v2, peer, x) == has_visit(v, peer, x));
                            if has_visit(v, peer, x) {
                                assert(v2.walks[x as int] == v.walks[x as int]);
                            }
                        }
                    }
                }
            } else {
                assert(hit_walks(v2, peer, e, positive).remove(w) =~= Set::<WalkId>::empty()) by {
                    assert forall|x: WalkId| !#[trigger] hit_walks(v2, peer, e, positive).remove(
                        w,
                    ).contains(x) by {
                        if x != w {
                            assert(has_visit(v2, peer, x) == has_visit(v, peer, x));
                        }
                    }
                }
                assert(!counts_for(hits, e).contains_key(peer));
            }
        }
    }
}

/// Exact counters are exact except for a walk without visits.
pub proof fn lemma_uncounted_fresh_walk(h: HitsView, v: StorageView, w: WalkId)
    requires
        hits_exact(h, v),
        forall|n: NodeId| !#[trigger] has_visit(v, n, w),
    ensures
        hits_exact_except(h, v, w),
{
    assert forall|positive: bool, hits: Map<NodeId, Map<NodeId, CounterValue>>|
        side_exact_but(hits, v, positive, false, 0) implies #[trigger] side_exact_but(
        hits,
        v,
        positive,
        true,
        w,
    ) by {
        assert forall|e: NodeId, peer: NodeId|
            (counts_for(hits, e).contains_key(peer) ==> peer < v.visits.len()) && (peer
                < v.visits.len() ==> count_of(counts_for(hits, e), peer) == hit_walks(
                v,
                peer,
                e,
                positive,
            ).remove(w).len()) by {
            if counts_for(hits, e).contains_key(peer) {
            }
            if peer < v.visits.len() {
                assert(!has_visit(v, peer, w));
                assert(hit_walks(v, peer, e, positive).remove(w) =~= hit_walks(v, peer, e, positive));
            }
        }
    }
}

/// Taking the hits of a stored walk out of exact counters leaves them exact except
/// for that walk.
pub proof fn lemma_revert_uncounts_walk(h: HitsView, v: StorageView, w: WalkId)
    requires
        exact(v),
        visits_finite(v),
        hits_exact(h, v),
        w < v.walks.len(),
        v.walks[w as int].nodes.len() > 0,
    ensures
        hits_exact_except(reverted_hits(h, v.walks[w as int].nodes[0], v.walks[w as int]), v, w),
{
    lemma_revert_side(h.pos, v, w, true);
    lemma_revert_side(h.neg, v, w, false);
}

/// Counters exact except for walk `w` stay so while only `w` and its own visits
/// change: the other walks, their visits and the visit positions stay, and the index
/// only grows.
pub proof fn lemma_change_of_uncounted_walk(h: HitsView, v: StorageView, v2: StorageView, w: WalkId)
    requires
        hits_exact_except(h, v, w),
        others_kept(v, v2, w),
    ensures
        hits_exact_except(h, v2, w),
{
    lemma_change_side(h.pos, v, v2, w, true);
    lemma_change_side(h.neg, v, v2, w, false);
}

/// Counting a stored walk into counters that are exact except for it makes them
/// exact.
pub proof fn lemma_record_counts_walk(h: HitsView, v: StorageView, w: WalkId)
    requires
        exact(v),
        visits_finite(v),
        hits_exact_except(h, v, w),
        w < v.walks.len(),
        v.walks[w as int].nodes.len() > 0,
        forall|k: NodeId| #[trigger]
            positive_nodes(v.walks[w as int]).contains(k) ==> count_of(
                counts_for(h.pos, v.walks[w as int].nodes[0]),
                k,
            ) < CounterValue::MAX,
        forall|k: NodeId| #[trigger]
            negative_nodes(v.walks[w as int]).contains(k) ==> count_of(
                counts_for(h.neg, v.walks[w as int].nodes[0]),
                k,
            ) < CounterValue::MAX,
    ensures
        hits_exact(recorded_hits(h, v.walks[w as int].nodes[0], v.walks[w as int]), v),
{
    lemma_record_side(h.pos, v, w, true);
    lemma_record_side(h.neg, v, w, false);
}

/// Replacing walk `w` changes nothing else.
pub proof fn lemma_walk_change_keeps_others(v: StorageView, w: WalkId, walk: WalkView)
    requires
        records_stored_walks_only(v),
        w < v.walks.len(),
    ensures
        others_kept(v, StorageView { walks: v.walks.update(w as int, walk), ..v }, w),
{
}

/// Cutting walk `w` and removing the visits that only its cut-off part made changes
/// nothing else.
pub proof fn lemma_split_keeps_others(v: StorageView, w: WalkId, cut: int)
    requires
        records_stored_walks_only(v),
        w < v.walks.len(),
        0 <= cut <= v.walks[w as int].nodes.len(),
    ensures
        ({
            let walk = v.walks[w as int];
            others_kept(
                v,
                StorageView {
                    walks: v.walks.update(w as int, kept_walk(walk, cut)),
                    visits: split_visits(
                        v.visits,
                        w,
                        walk.nodes.subrange(0, cut),
                        walk.nodes.subrange(cut, walk.nodes.len() as int),
                    ),
                    ..v
                },
                w,
            )
        }),
{
}

/// Whether index `b` holds the entries of `a` of every walk but `w`, with the same
/// positions, and nothing more of them, and covers at least as many nodes.
pub open spec fn index_kept_but(a: Seq<Map<WalkId, usize>>, b: Seq<Map<WalkId, usize>>, w: WalkId) -> bool {
    &&& a.len() <= b.len()
    &&& forall|n: int, x: WalkId|
        #![trigger b[n].contains_key(x)]
        #![trigger a[n].contains_key(x)]
        0 <= n && x != w ==> (n < b.len() && b[n].contains_key(x)) == (n < a.len()
            && a[n].contains_key(x)) && (n < a.len() && a[n].contains_key(x) ==> b[n][x]
            == a[n][x])
}

/// Recording visits of walk `w` keeps the entries of every other walk.
proof fn lemma_record_visits_index_kept(
    visits: Seq<Map<WalkId, usize>>,
    w: WalkId,
    nodes: Seq<NodeId>,
    start: int,
    end: int,
)
    requires
        forall|i: int| start <= i < end ==> #[trigger] nodes[i] < usize::MAX,
    ensures
        index_kept_but(visits, record_visits(visits, w, nodes, start, end), w),
    decreases end - start,
{
    if end > start {
        lemma_record_visits_index_kept(visits, w, nodes, start, end - 1);
        let prev = record_visits(visits, w, nodes, start, end - 1);
        let next = record_visit(prev, w, (end - 1) as usize, nodes[end - 1]);
        assert(nodes[end - 1] < usize::MAX);
        assert(index_kept_but(prev, next, w));
    }
}

/// Recording the visits of walk `w` changes nothing else.
pub proof fn lemma_record_visits_keeps_others(v: StorageView, w: WalkId, start: int)
    requires
        records_stored_walks_only(v),
        w < v.walks.len(),
        forall|i: int|
            start <= i < v.walks[w as int].nodes.len() ==> #[trigger] v.walks[w as int].nodes[i]
                < usize::MAX,
    ensures
        others_kept(
            v,
            StorageView {
                visits: record_visits(
                    v.visits,
                    w,
                    v.walks[w as int].nodes,
                    start,
                    v.walks[w as int].nodes.len() as int,
                ),
                ..v
            },
            w,
        ),
{
    let nodes = v.walks[w as int].nodes;
    lemma_record_visits_index_kept(v.visits, w, nodes, start, nodes.len() as int);
    let v2 = StorageView { visits: record_visits(v.visits, w, nodes, start, nodes.len() as int), ..v };
    assert forall|n: NodeId, x: WalkId| x != w implies #[trigger] has_visit(v2, n, x) == has_visit(
        v,
        n,
        x,
    ) && (has_visit(v, n, x) ==> x < v.walks.len() && v2.visits[n as int][x] == v.visits[n as int][x]) by {
        assert(v2.visits[n as int].contains_key(x) == v2.visits[n as int].contains_key(x));
        assert(v.visits[n as int].contains_key(x) == v.visits[n as int].contains_key(x));
    }
}

/// Handing out a walk id changes nothing but the walk handed out, which has no
/// visits, so that exact counters are exact except for it.
pub proof fn lemma_free_walk_id_uncounted(h: HitsView, v: StorageView)
    requires
        exact(v),
        unused_walks_empty(v),
        hits_exact(h, v),
        v.unused.len() == 0 ==> v.walks.len() < usize::MAX,
    ensures
        ({
            let (id, after) = if v.unused.len() > 0 {
                (v.unused[0], StorageView { unused: v.unused.drop_first(), ..v })
            } else {
                (v.walks.len() as WalkId, StorageView { walks: v.walks.push(empty_walk()), ..v })
            };
            &&& others_kept(v, after, id)
            &&& hits_exact_except(h, after, id)
        }),
{
    lemma_free_walk_id_keeps_exact(v);
    let (id, after) = if v.unused.len() > 0 {
        (v.unused[0], StorageView { unused: v.unused.drop_first(), ..v })
    } else {
        (v.walks.len() as WalkId, StorageView { walks: v.walks.push(empty_walk()), ..v })
    };
    assert(recorded_exactly(after, id, 0));
    assert forall|n: NodeId| !#[trigger] has_visit(v, n, id) by {
        assert(has_visit(after, n, id) == has_visit(v, n, id));
    }
    lemma_uncounted_fresh_walk(h, v, id);
    lemma_change_of_uncounted_walk(h, v, after, id);
}

} // verus!
