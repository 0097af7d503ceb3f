//! What the visit index of a walk storage means, and which operations keep it so.
//!
//! The index is exact when every stored walk has a recorded visit at exactly the
//! nodes that it visits, at the position of its first visit there, and no other
//! walk has any. The operations that change walks or the index keep this up: cutting
//! a walk, recording the visits of a walk that was extended, handing out a walk id,
//! and dropping the walks that start at a node.
use vstd::prelude::*;

use crate::random_walk::{NodeId, WalkView};
use crate::walk_storage::{
    StorageView, WalkId, empty_walk, gone_visitors, kept_walk, lemma_push_contains,
    record_visit, record_visits, split_visits, visits_in_range, visits_point_to_their_nodes,
    visits_without, walks_cleared, walks_starting_at,
};

verus! {

/// Whether `p` is the position of the first visit of `n` in `nodes`.
pub open spec fn is_first_visit(nodes: Seq<NodeId>, n: NodeId, p: int) -> bool {
    &&& 0 <= p < nodes.len()
    &&& nodes[p] == n
    &&& forall|q: int| 0 <= q < p ==> nodes[q] != n
}

/// Whether the index records a visit of walk `w` at node `n`.
pub open spec fn has_visit(v: StorageView, n: NodeId, w: WalkId) -> bool {
    n < v.visits.len() && v.visits[n as int].contains_key(w)
}

/// Whether the index records walk `w` exactly for its first `upto` nodes: a node has
/// a visit of the walk if and only if the walk visits it among those nodes, and the
/// recorded position is that of the first visit.
pub open spec fn recorded_exactly(v: StorageView, w: WalkId, upto: int) -> bool {
    &&& forall|n: NodeId|
        #[trigger] has_visit(v, n, w) <==> v.walks[w as int].nodes.take(upto).contains(n)
    &&& forall|n: NodeId|
        #[trigger] has_visit(v, n, w) ==> is_first_visit(
            v.walks[w as int].nodes,
            n,
            v.visits[n as int][w] as int,
        )
}

/// Whether the index records no walk that is not stored (and has at most one entry
/// per node id).
pub open spec fn records_stored_walks_only(v: StorageView) -> bool {
    &&& v.visits.len() <= usize::MAX
    &&& forall|n: NodeId, w: WalkId| #[trigger] has_visit(v, n, w) ==> w < v.walks.len()
}

/// Whether two indexes hold the same visits of walk `x`.
pub open spec fn same_visits_of(v1: StorageView, v2: StorageView, x: WalkId) -> bool {
    forall|n: NodeId|
        #![trigger has_visit(v2, n, x)]
        #![trigger has_visit(v1, n, x)]
        (has_visit(v2, n, x) == has_visit(v1, n, x)) && (has_visit(v1, n, x)
            ==> v2.visits[n as int][x] == v1.visits[n as int][x])
}

/// The exact record of a walk carries over to an index with the same visits of the
/// walk and the same walk.
proof fn lemma_recorded_transfer(v1: StorageView, v2: StorageView, x: WalkId, upto: int)
    requires
        recorded_exactly(v1, x, upto),
        same_visits_of(v1, v2, x),
        v2.walks[x as int] == v1.walks[x as int],
    ensures
        recorded_exactly(v2, x, upto),
{
    assert forall|n: NodeId|
        #[trigger] has_visit(v2, n, x) <==> v2.walks[x as int].nodes.take(upto).contains(n) by {
        assert(has_visit(v1, n, x) == has_visit(v2, n, x));
    }
    assert forall|n: NodeId| #[trigger] has_visit(v2, n, x) implies is_first_visit(
        v2.walks[x as int].nodes,
        n,
        v2.visits[n as int][x] as int,
    ) by {
        assert(has_visit(v1, n, x));
    }
}

/// Whether the index is exact for all walks but `w`, which is recorded exactly for
/// its first `upto` nodes.
pub open spec fn exact_except(v: StorageView, w: WalkId, upto: int) -> bool {
    &&& w < v.walks.len()
    &&& 0 <= upto <= v.walks[w as int].nodes.len()
    &&& records_stored_walks_only(v)
    &&& recorded_exactly(v, w, upto)
    &&& forall|x: WalkId|
        x < v.walks.len() && x != w ==> #[trigger] recorded_exactly(
            v,
            x,
            v.walks[x as int].nodes.len() as int,
        )
}

/// Whether the index is exact for every stored walk.
pub open spec fn exact(v: StorageView) -> bool {
    &&& records_stored_walks_only(v)
    &&& forall|x: WalkId|
        x < v.walks.len() ==> #[trigger] recorded_exactly(v, x, v.walks[x as int].nodes.len() as int)
}

/// Whether every id queued for reuse names a stored walk without nodes.
pub open spec fn unused_walks_empty(v: StorageView) -> bool {
    forall|i: int|
        0 <= i < v.unused.len() ==> #[trigger] v.unused[i] < v.walks.len() && v.walks[v.unused[i] as int].nodes.len()
            == 0
}

/// An exact index records each visit at a position of a stored walk that is at the
/// node: the index passes the consistency check.
pub proof fn lemma_exact_is_consistent(v: StorageView)
    requires
        exact(v),
    ensures
        visits_in_range(v),
        visits_point_to_their_nodes(v),
{
    assert forall|n: int, w: WalkId|
        0 <= n < v.visits.len() && #[trigger] v.visits[n].contains_key(w) implies w < v.walks.len()
            && v.visits[n][w] < v.walks[w as int].nodes.len() && v.walks[w as int].nodes[v.visits[n][w] as int]
            == n by {
        let nn = n as NodeId;
        assert(has_visit(v, nn, w));
        assert(recorded_exactly(v, w, v.walks[w as int].nodes.len() as int));
        assert(is_first_visit(v.walks[w as int].nodes, nn, v.visits[n][w] as int));
    }
}

/// An exact index is exact for every walk but one, recorded for all its nodes.
pub proof fn lemma_exact_is_exact_except(v: StorageView, w: WalkId)
    requires
        exact(v),
        w < v.walks.len(),
    ensures
        exact_except(v, w, v.walks[w as int].nodes.len() as int),
{
    assert(recorded_exactly(v, w, v.walks[w as int].nodes.len() as int));
}

/// Changing walk `w` keeps the index exact for all other walks and for the nodes of
/// `w` before `upto`, as long as those nodes stay as they were.
pub proof fn lemma_extension_keeps_exact_except(
    v: StorageView,
    w: WalkId,
    upto: int,
    new_walk: WalkView,
)
    requires
        exact_except(v, w, upto),
        upto <= new_walk.nodes.len(),
        new_walk.nodes.take(upto) == v.walks[w as int].nodes.take(upto),
    ensures
        exact_except(StorageView { walks: v.walks.update(w as int, new_walk), ..v }, w, upto),
{
    let v2 = StorageView { walks: v.walks.update(w as int, new_walk), ..v };
    let old_nodes = v.walks[w as int].nodes;
    assert(v2.walks[w as int] == new_walk);
    assert forall|n: NodeId|
        #[trigger] has_visit(v2, n, w) <==> v2.walks[w as int].nodes.take(upto).contains(n) by {
        assert(has_visit(v, n, w) == has_visit(v2, n, w));
    }
    assert forall|n: NodeId| #[trigger] has_visit(v2, n, w) implies is_first_visit(
        new_walk.nodes,
        n,
        v2.visits[n as int][w] as int,
    ) by {
        let p = v.visits[n as int][w] as int;
        assert(has_visit(v, n, w));
        assert(is_first_visit(old_nodes, n, p));
        assert(old_nodes.take(upto).contains(n));
        let t = choose|t: int| 0 <= t < old_nodes.take(upto).len() && old_nodes.take(upto)[t] == n;
        assert(old_nodes[t] == n);
        assert(p <= t);
        assert(t < upto);
        assert forall|q: int| 0 <= q <= p implies #[trigger] new_walk.nodes[q] == old_nodes[q] by {
            assert(new_walk.nodes.take(upto)[q] == old_nodes.take(upto)[q]);
        }
        assert(new_walk.nodes[p] == n);
        assert forall|q: int| 0 <= q < p implies new_walk.nodes[q] != n by {
            assert(new_walk.nodes[q] == old_nodes[q]);
        }
        assert(v2.visits[n as int][w] as int == p);
    }
    assert forall|n: NodeId, x: WalkId| #[trigger] has_visit(v2, n, x) implies x < v2.walks.len() by {
        assert(has_visit(v, n, x));
    }
    assert forall|x: WalkId|
        x < v2.walks.len() && x != w implies #[trigger] recorded_exactly(
        v2,
        x,
        v2.walks[x as int].nodes.len() as int,
    ) by {
        assert(recorded_exactly(v, x, v.walks[x as int].nodes.len() as int));
        lemma_recorded_transfer(v, v2, x, v.walks[x as int].nodes.len() as int);
    }
}

/// Handing out a walk id keeps the index exact, and the walk handed out has no nodes
/// and no recorded visits, so that recording it from its first node on is exact.
pub proof fn lemma_free_walk_id_keeps_exact(v: StorageView)
    requires
        exact(v),
        unused_walks_empty(v),
        v.unused.len() == 0 ==> v.walks.len() < usize::MAX,
    ensures
        ({
            let (id, after) = if v.unused.len() > 0 {
                (v.unused[0], StorageView { unused: v.unused.drop_first(), ..v })
            } else {
                (v.walks.len() as WalkId, StorageView { walks: v.walks.push(empty_walk()), ..v })
            };
            &&& exact(after)
            &&& unused_walks_empty(after)
            &&& after.walks[id as int].nodes.len() == 0
            &&& exact_except(after, id, 0)
        }),
{
    if v.unused.len() > 0 {
        let id = v.unused[0];
        let after = StorageView { unused: v.unused.drop_first(), ..v };
        assert(v.unused[0] < v.walks.len());
        assert forall|i: int| 0 <= i < after.unused.len() implies #[trigger] after.unused[i]
            < after.walks.len() && after.walks[after.unused[i] as int].nodes.len() == 0 by {
            assert(after.unused[i] == v.unused[i + 1]);
        }
        assert forall|n: NodeId, x: WalkId| #[trigger] has_visit(after, n, x) implies x
            < after.walks.len() by {
            assert(has_visit(v, n, x));
        }
        assert forall|x: WalkId| x < after.walks.len() implies #[trigger] recorded_exactly(
            after,
            x,
            after.walks[x as int].nodes.len() as int,
        ) by {
            assert(recorded_exactly(v, x, v.walks[x as int].nodes.len() as int));
            lemma_recorded_transfer(v, after, x, v.walks[x as int].nodes.len() as int);
        }
        assert(recorded_exactly(after, id, after.walks[id as int].nodes.len() as int));
    } else {
        let id = v.walks.len() as WalkId;
        assert(id as int == v.walks.len());
        let after = StorageView { walks: v.walks.push(empty_walk()), ..v };
        assert(after.walks[id as int] == empty_walk());
        assert(after.walks[id as int].nodes =~= Seq::<NodeId>::empty());
        assert forall|n: NodeId| !#[trigger] has_visit(after, n, id) by {
            if has_visit(after, n, id) {
                assert(has_visit(v, n, id));
            }
        }
        assert(recorded_exactly(after, id, 0)) by {
            assert(after.walks[id as int].nodes.take(0) =~= Seq::<NodeId>::empty());
        }
        assert forall|x: WalkId| x < after.walks.len() implies #[trigger] recorded_exactly(
            after,
            x,
            after.walks[x as int].nodes.len() as int,
        ) by {
            if x < v.walks.len() {
                assert(recorded_exactly(v, x, v.walks[x as int].nodes.len() as int));
                assert(after.walks[x as int] == v.walks[x as int]);
                lemma_recorded_transfer(v, after, x, v.walks[x as int].nodes.len() as int);
            } else {
                assert(x == id);
            }
        }
        assert forall|n: NodeId, x: WalkId| #[trigger] has_visit(after, n, x) implies x
            < after.walks.len() by {
            assert(has_visit(v, n, x));
        }
        assert forall|i: int| 0 <= i < after.unused.len() implies #[trigger] after.unused[i]
            < after.walks.len() && after.walks[after.unused[i] as int].nodes.len() == 0 by {
        }
    }
}

/// Cutting a walk keeps the index exact: the cut-off part's own visits leave the
/// index, the kept part's stay.
pub proof fn lemma_split_keeps_exact(v: StorageView, w: WalkId, cut: int)
    requires
        exact(v),
        w < v.walks.len(),
        0 <= cut <= v.walks[w as int].nodes.len(),
    ensures
        ({
            let walk = v.walks[w as int];
            let after = StorageView {
                walks: v.walks.update(w as int, kept_walk(walk, cut)),
                visits: split_visits(
                    v.visits,
                    w,
                    walk.nodes.subrange(0, cut),
                    walk.nodes.subrange(cut, walk.nodes.len() as int),
                ),
                ..v
            };
            exact(after)
        }),
{
    let walk = v.walks[w as int];
    let kept = walk.nodes.subrange(0, cut);
    let rest = walk.nodes.subrange(cut, walk.nodes.len() as int);
    let after = StorageView {
        walks: v.walks.update(w as int, kept_walk(walk, cut)),
        visits: split_visits(v.visits, w, kept, rest),
        ..v
    };
    assert(recorded_exactly(v, w, walk.nodes.len() as int));
    assert(walk.nodes.take(walk.nodes.len() as int) =~= walk.nodes);
    assert forall|n: NodeId, x: WalkId| #[trigger] has_visit(after, n, x) implies x
        < after.walks.len() by {
        assert(has_visit(v, n, x));
    }
    let nodes = after.walks[w as int].nodes;
    assert(nodes == kept);
    assert(nodes.take(nodes.len() as int) =~= kept);
    assert forall|n: NodeId|
        #[trigger] has_visit(after, n, w) <==> nodes.take(nodes.len() as int).contains(n) by {
        if kept.contains(n) {
            let t = choose|t: int| 0 <= t < kept.len() && kept[t] == n;
            assert(walk.nodes[t] == n);
            assert(walk.nodes.take(walk.nodes.len() as int).contains(n));
            assert(has_visit(v, n, w));
        } else if has_visit(v, n, w) {
            assert(walk.nodes.take(walk.nodes.len() as int).contains(n));
            let t = choose|t: int| 0 <= t < walk.nodes.len() && walk.nodes[t] == n;
            assert(rest[t - cut] == n);
            assert(rest.contains(n));
        }
    }
    assert forall|n: NodeId| #[trigger] has_visit(after, n, w) implies is_first_visit(
        nodes,
        n,
        after.visits[n as int][w] as int,
    ) by {
        assert(nodes.take(nodes.len() as int).contains(n));
        assert(kept.contains(n));
        let t = choose|t: int| 0 <= t < kept.len() && kept[t] == n;
        assert(has_visit(v, n, w));
        let p = v.visits[n as int][w] as int;
        assert(is_first_visit(walk.nodes, n, p));
        assert(walk.nodes[t] == n);
        assert(p <= t);
        assert(after.visits[n as int] == v.visits[n as int]);
    }
    assert(recorded_exactly(after, w, nodes.len() as int));
    assert forall|x: WalkId| x < after.walks.len() implies #[trigger] recorded_exactly(
        after,
        x,
        after.walks[x as int].nodes.len() as int,
    ) by {
        if x != w {
            assert(recorded_exactly(v, x, v.walks[x as int].nodes.len() as int));
            assert(same_visits_of(v, after, x)) by {
                assert forall|n: NodeId| #![trigger has_visit(after, n, x)] #![trigger has_visit(v, n, x)]
                    n < after.visits.len() implies after.visits[n as int].contains_key(x)
                    == v.visits[n as int].contains_key(x) && (v.visits[n as int].contains_key(x)
                    ==> after.visits[n as int][x] == v.visits[n as int][x]) by {
                }
            }
            lemma_recorded_transfer(v, after, x, v.walks[x as int].nodes.len() as int);
        }
    }
}

/// Recording one visit adds exactly that visit, unless the walk already has one at
/// the node, and leaves every other entry as it was.
proof fn lemma_record_visit_effect(vp: StorageView, w: WalkId, pos: usize, node: NodeId)
    requires
        node < usize::MAX,
        vp.visits.len() <= usize::MAX,
    ensures
        ({
            let vn = StorageView { visits: record_visit(vp.visits, w, pos, node), ..vp };
            &&& vn.visits.len() <= usize::MAX
            &&& forall|n: NodeId, x: WalkId|
                #[trigger] has_visit(vn, n, x) <==> has_visit(vp, n, x) || (n == node && x == w)
            &&& forall|n: NodeId, x: WalkId|
                #[trigger] has_visit(vn, n, x) ==> vn.visits[n as int][x] == if has_visit(
                    vp,
                    n,
                    x,
                ) {
                    vp.visits[n as int][x]
                } else {
                    pos
                }
        }),
{
    let vn = StorageView { visits: record_visit(vp.visits, w, pos, node), ..vp };
    assert forall|n: NodeId, x: WalkId|
        #[trigger] has_visit(vn, n, x) <==> has_visit(vp, n, x) || (n == node && x == w) by {
    }
}

/// Recording the visits of walk `w` from position `start` on, when the index is exact
/// for all other walks and for the first `start` nodes of `w`, makes it exact for
/// the first `end` nodes of `w`.
#[verifier::spinoff_prover]
proof fn lemma_record_visits_exact(v: StorageView, w: WalkId, start: int, end: int)
    requires
        exact_except(v, w, start),
        start <= end <= v.walks[w as int].nodes.len(),
        v.walks[w as int].nodes.len() <= usize::MAX,
        forall|i: int|
            start <= i < v.walks[w as int].nodes.len() ==> #[trigger] v.walks[w as int].nodes[i]
                < usize::MAX,
    ensures
        exact_except(
            StorageView {
                visits: record_visits(v.visits, w, v.walks[w as int].nodes, start, end),
                ..v
            },
            w,
            end,
        ),
    decreases end - start,
{
    let nodes = v.walks[w as int].nodes;
    if end > start {
        lemma_record_visits_exact(v, w, start, end - 1);
        let prev = record_visits(v.visits, w, nodes, start, end - 1);
        let vp = StorageView { visits: prev, ..v };
        let node = nodes[end - 1];
        let pos = (end - 1) as usize;
        let next = record_visit(prev, w, pos, node);
        let vn = StorageView { visits: next, ..v };
        assert(next == record_visits(v.visits, w, nodes, start, end));
        assert(node < usize::MAX);
        lemma_record_visit_effect(vp, w, pos, node);
        assert(nodes.take(end) =~= nodes.take(end - 1).push(node));
        assert forall|x: WalkId| x < vn.walks.len() && x != w implies #[trigger] recorded_exactly(
            vn,
            x,
            vn.walks[x as int].nodes.len() as int,
        ) by {
            assert(recorded_exactly(vp, x, vp.walks[x as int].nodes.len() as int));
            lemma_recorded_transfer(vp, vn, x, vp.walks[x as int].nodes.len() as int);
        }
        assert forall|n: NodeId|
            #[trigger] has_visit(vn, n, w) <==> nodes.take(end).contains(n) by {
            lemma_push_contains(nodes.take(end - 1), node, n);
            assert(has_visit(vp, n, w) == has_visit(vp, n, w));
        }
        assert forall|n: NodeId| #[trigger] has_visit(vn, n, w) implies is_first_visit(
            nodes,
            n,
            vn.visits[n as int][w] as int,
        ) by {
            if has_visit(vp, n, w) {
                assert(recorded_exactly(vp, w, end - 1));
                assert(is_first_visit(nodes, n, vp.visits[n as int][w] as int));
                assert(vn.visits[n as int][w] == vp.visits[n as int][w]);
            } else {
                assert(n == node);
                assert(vn.visits[n as int][w] == pos);
                assert(pos as int == end - 1);
                assert(nodes[end - 1] == n);
                assert forall|q: int| 0 <= q < end - 1 implies nodes[q] != n by {
                    if nodes[q] == n {
                        assert(nodes.take(end - 1)[q] == n);
                        assert(nodes.take(end - 1).contains(n));
                        assert(has_visit(vp, n, w));
                    }
                }
                assert(is_first_visit(nodes, n, end - 1));
            }
        }
        assert forall|n: NodeId, x: WalkId| #[trigger] has_visit(vn, n, x) implies x
            < vn.walks.len() by {
            if has_visit(vp, n, x) {
            }
        }
    } else {
        assert(record_visits(v.visits, w, nodes, start, end) == v.visits);
    }
}

/// After walk `w` was extended past its first `start` nodes, which the index records
/// exactly (and all other walks are recorded exactly), recording its visits from
/// `start` on makes the index exact again.
pub proof fn lemma_record_after_extension_exact(v: StorageView, w: WalkId, start: int)
    requires
        exact_except(v, w, start),
        v.walks[w as int].nodes.len() <= usize::MAX,
        forall|i: int|
            start <= i < v.walks[w as int].nodes.len() ==> #[trigger] v.walks[w as int].nodes[i]
                < usize::MAX,
    ensures
        exact(
            StorageView {
                visits: record_visits(
                    v.visits,
                    w,
                    v.walks[w as int].nodes,
                    start,
                    v.walks[w as int].nodes.len() as int,
                ),
                ..v
            },
        ),
{
    let len = v.walks[w as int].nodes.len() as int;
    lemma_record_visits_exact(v, w, start, len);
    let after = StorageView {
        visits: record_visits(v.visits, w, v.walks[w as int].nodes, start, len),
        ..v
    };
    assert forall|x: WalkId| x < after.walks.len() implies #[trigger] recorded_exactly(
        after,
        x,
        after.walks[x as int].nodes.len() as int,
    ) by {
        if x == w {
        }
    }
}

/// Dropping the walks that start at a node keeps the index exact, and their ids,
/// queued for reuse, name walks without nodes.
pub proof fn lemma_drop_keeps_exact(v: StorageView, node: NodeId, order: Seq<WalkId>)
    requires
        exact(v),
        unused_walks_empty(v),
        order.to_set() == walks_starting_at(v.visits, node),
    ensures
        ({
            let gone = walks_starting_at(v.visits, node);
            let after = StorageView {
                walks: walks_cleared(v.walks, gone),
                visits: visits_without(v.visits, v.walks, gone),
                unused: v.unused + order,
            };
            &&& exact(after)
            &&& unused_walks_empty(after)
        }),
{
    let gone = walks_starting_at(v.visits, node);
    let after = StorageView {
        walks: walks_cleared(v.walks, gone),
        visits: visits_without(v.visits, v.walks, gone),
        unused: v.unused + order,
    };
    assert forall|w: WalkId| gone.contains(w) implies w < v.walks.len() by {
        assert(has_visit(v, node, w));
    }
    assert forall|n: NodeId, x: WalkId| #[trigger] has_visit(after, n, x) implies x
        < after.walks.len() by {
        assert(has_visit(v, n, x));
    }
    assert forall|x: WalkId| x < after.walks.len() implies #[trigger] recorded_exactly(
        after,
        x,
        after.walks[x as int].nodes.len() as int,
    ) by {
        let xn = v.walks[x as int].nodes;
        assert(recorded_exactly(v, x, xn.len() as int));
        assert(xn.take(xn.len() as int) =~= xn);
        if gone.contains(x) {
            assert(after.walks[x as int].nodes =~= Seq::<NodeId>::empty());
            assert(after.walks[x as int].nodes.take(0) =~= Seq::<NodeId>::empty());
            assert forall|n: NodeId| !#[trigger] has_visit(after, n, x) by {
                if has_visit(after, n, x) {
                    assert(has_visit(v, n, x));
                    assert(xn.take(xn.len() as int).contains(n));
                    assert(gone_visitors(v.walks, gone, n).contains(x));
                }
            }
        } else {
            assert(after.walks[x as int] == v.walks[x as int]);
            assert(same_visits_of(v, after, x)) by {
                assert forall|n: NodeId| n < after.visits.len() implies !#[trigger] gone_visitors(
                    v.walks,
                    gone,
                    n,
                ).contains(x) by {
                }
            }
            lemma_recorded_transfer(v, after, x, xn.len() as int);
        }
    }
    assert forall|i: int| 0 <= i < after.unused.len() implies #[trigger] after.unused[i]
        < after.walks.len() && after.walks[after.unused[i] as int].nodes.len() == 0 by {
        if i < v.unused.len() {
            assert(after.unused[i] == v.unused[i]);
        } else {
            let w = order[i - v.unused.len()];
            assert(after.unused[i] == w);
            assert(order.contains(w));
            assert(order.to_set().contains(w));
            assert(gone.contains(w));
        }
    }
}

} // verus!
