//! Storage for random walks, with an index of which walks visit which node.
use std::collections::HashMap;
use std::collections::VecDeque;
use vstd::prelude::*;
use vstd::std_specs::hash::spec_hash_map_iter;
use vstd::std_specs::iter::IteratorSpec;

use crate::errors::internal_fatal;
use crate::errors::MeritRankError;
use crate::random_walk::{positive_end, NodeId, RandomWalk, WalkView};

verus! {

/// Identifier of a stored walk: its index in the storage.
pub type WalkId = usize;

/// An edge, as the pair of its source and destination node.
pub type EdgeId = (NodeId, NodeId);

/// Stores walks by id, recycles the ids of dropped walks, and keeps for each node
/// the walks that visit it together with the position of the visit.
#[derive(Clone)]
pub struct WalkStorage {
    visits: Vec<HashMap<WalkId, usize>>,
    walks: Vec<RandomWalk>,
    unused_walks: VecDeque<WalkId>,
}

/// The contents of a walk storage.
pub struct StorageView {
    /// For each node, the walks that visit it and the recorded position of the visit.
    pub visits: Seq<Map<WalkId, usize>>,
    /// The walks, by id.
    pub walks: Seq<WalkView>,
    /// Ids of dropped walks, to be handed out again first to last.
    pub unused: Seq<WalkId>,
}

impl View for WalkStorage {
    type V = StorageView;

    closed spec fn view(&self) -> StorageView {
        StorageView {
            visits: self.visits@.map_values(|m: HashMap<WalkId, usize>| m@),
            walks: self.walks@.map_values(|w: RandomWalk| w@),
            unused: self.unused_walks@,
        }
    }
}

/// The walk with no nodes and no negative segment.
pub open spec fn empty_walk() -> WalkView {
    WalkView { nodes: Seq::empty(), negative_segment_start: None }
}

/// The position of the first step `u -> v` at or after `from`.
pub open spec fn first_step_from(nodes: Seq<NodeId>, from: int, u: NodeId, v: NodeId) -> Option<
    int,
>
    decreases nodes.len() - from,
{
    if from < 0 || from + 1 >= nodes.len() {
        None
    } else if nodes[from] == u && nodes[from + 1] == v {
        Some(from)
    } else {
        first_step_from(nodes, from + 1, u, v)
    }
}

/// Whether a walk visited at `pos` may keep its continuation when the edge `u -> v`
/// is deleted, and the position from which it has to be recomputed otherwise: only a
/// walk that takes the step `u -> v` at or after `pos` is affected, from that step on.
pub open spec fn deletion_decision(nodes: Seq<NodeId>, pos: int, u: NodeId, v: NodeId) -> (
    bool,
    int,
) {
    if pos == nodes.len() - 1 {
        (true, pos)
    } else {
        match first_step_from(nodes, pos, u, v) {
            Some(i) => (false, i),
            None => (true, pos),
        }
    }
}

/// Number of visits of `u` at or after position `from`.
pub open spec fn visits_from(nodes: Seq<NodeId>, from: int, u: NodeId) -> nat
    decreases nodes.len() - from,
{
    if from < 0 || from >= nodes.len() {
        0
    } else {
        visits_from(nodes, from + 1, u) + if nodes[from] == u {
            1nat
        } else {
            0nat
        }
    }
}

/// The draw that decides about a visit at position `i`: each visit has a pair of
/// draws, the first made with the recomputation probability of the walk's positive
/// part, the second with that of its negative segment, which starts at `neg_from`.
pub open spec fn segment_draw(draw: (bool, bool), i: int, neg_from: int) -> bool {
    if i < neg_from {
        draw.0
    } else {
        draw.1
    }
}

/// Scans the walk from position `i` for visits of `u`. The `k`-th visit found is
/// recomputed when its draw for the walk's segment at that position (see
/// [`segment_draw`]) holds, and the scan stops there; `last` is the position of the
/// latest visit seen so far.
pub open spec fn addition_scan(
    nodes: Seq<NodeId>,
    neg_from: int,
    i: int,
    u: NodeId,
    draws: Seq<(bool, bool)>,
    k: int,
    last: int,
) -> (bool, int)
    decreases nodes.len() - i,
{
    if i < 0 || i >= nodes.len() {
        (true, last)
    } else if nodes[i] == u {
        if segment_draw(draws[k], i, neg_from) {
            (false, i)
        } else {
            addition_scan(nodes, neg_from, i + 1, u, draws, k + 1, i)
        }
    } else {
        addition_scan(nodes, neg_from, i + 1, u, draws, k, last)
    }
}

/// Whether a walk visited at `pos` may keep its continuation when a new edge leaves
/// `u`, and the position from which it has to be recomputed otherwise. The walk is
/// recomputed from the first visit of `u` (at or after `pos`) whose draw says so;
/// `draws[k]` are the draws for the `k`-th such visit, of which a visit before the
/// negative segment uses the first and a visit in it the second.
pub open spec fn addition_decision(walk: WalkView, pos: int, u: NodeId, draws: Seq<(bool, bool)>) -> (
    bool,
    int,
) {
    addition_scan(
        walk.nodes,
        positive_end(walk.nodes.len(), walk.negative_segment_start) as int,
        pos,
        u,
        draws,
        0,
        pos,
    )
}

/// What the search for a step `u -> v` from `from` finds, stated directly.
proof fn lemma_first_step_from(nodes: Seq<NodeId>, from: int, u: NodeId, v: NodeId)
    requires
        0 <= from,
    ensures
        match first_step_from(nodes, from, u, v) {
            Some(i) => from <= i && i + 1 < nodes.len() && nodes[i] == u && nodes[i + 1] == v
                && forall|j: int|
                from <= j < i ==> !(#[trigger] nodes[j] == u && nodes[j + 1] == v),
            None => forall|j: int|
                from <= j && j + 1 < nodes.len() ==> !(#[trigger] nodes[j] == u && nodes[j + 1] == v),
        },
    decreases nodes.len() - from,
{
    if from + 1 < nodes.len() && !(nodes[from] == u && nodes[from + 1] == v) {
        lemma_first_step_from(nodes, from + 1, u, v);
    }
}

/// The decision on a deleted edge `u -> v`, stated directly: a walk visited at its
/// last position is kept; otherwise it is recomputed from the first step `u -> v` at
/// or after `pos`, and kept when it takes no such step.
pub proof fn lemma_deletion_decision(nodes: Seq<NodeId>, pos: int, u: NodeId, v: NodeId)
    requires
        0 <= pos < nodes.len(),
    ensures
        ({
            let (skip, at) = deletion_decision(nodes, pos, u, v);
            &&& pos == nodes.len() - 1 ==> skip && at == pos
            &&& !skip ==> pos <= at && at + 1 < nodes.len() && nodes[at] == u && nodes[at + 1] == v
                && forall|j: int| pos <= j < at ==> !(#[trigger] nodes[j] == u && nodes[j + 1] == v)
            &&& skip ==> at == pos && forall|j: int|
                pos <= j && j + 1 < nodes.len() ==> !(#[trigger] nodes[j] == u && nodes[j + 1] == v)
        }),
{
    lemma_first_step_from(nodes, pos, u, v);
}

/// The number of visits of `u` in the positions `pos..i`: the index of the draws for
/// a visit at `i`.
pub open spec fn visit_rank(nodes: Seq<NodeId>, pos: int, i: int, u: NodeId) -> int {
    visits_from(nodes, pos, u) - visits_from(nodes, i, u)
}

/// What a scan from `i` finds, stated directly.
proof fn lemma_addition_scan(
    nodes: Seq<NodeId>,
    neg_from: int,
    pos: int,
    i: int,
    u: NodeId,
    draws: Seq<(bool, bool)>,
    k: int,
    last: int,
)
    requires
        0 <= pos <= i <= nodes.len(),
        k == visit_rank(nodes, pos, i, u),
        draws.len() >= visits_from(nodes, pos, u),
    ensures
        ({
            let (skip, at) = addition_scan(nodes, neg_from, i, u, draws, k, last);
            &&& !skip ==> i <= at < nodes.len() && nodes[at] == u && segment_draw(
                draws[visit_rank(nodes, pos, at, u)],
                at,
                neg_from,
            ) && forall|j: int|
                i <= j < at && #[trigger] nodes[j] == u ==> !segment_draw(
                    draws[visit_rank(nodes, pos, j, u)],
                    j,
                    neg_from,
                )
            &&& skip ==> forall|j: int|
                i <= j < nodes.len() && #[trigger] nodes[j] == u ==> !segment_draw(
                    draws[visit_rank(nodes, pos, j, u)],
                    j,
                    neg_from,
                )
        }),
    decreases nodes.len() - i,
{
    if i < nodes.len() {
        if nodes[i] == u {
            if !segment_draw(draws[k], i, neg_from) {
                lemma_addition_scan(nodes, neg_from, pos, i + 1, u, draws, k + 1, i);
            }
        } else {
            lemma_addition_scan(nodes, neg_from, pos, i + 1, u, draws, k, last);
        }
    }
}

/// The decision on a new edge, stated directly: the walk is recomputed from the
/// first visit of `u` at or after `pos` whose draw for its segment holds (the draws
/// of the `r`-th visit are `draws[r]`), and kept when no such draw holds.
pub proof fn lemma_addition_decision(walk: WalkView, pos: int, u: NodeId, draws: Seq<(bool, bool)>)
    requires
        0 <= pos < walk.nodes.len(),
        draws.len() >= visits_from(walk.nodes, pos, u),
    ensures
        ({
            let nodes = walk.nodes;
            let neg_from = positive_end(nodes.len(), walk.negative_segment_start) as int;
            let (skip, at) = addition_decision(walk, pos, u, draws);
            &&& !skip ==> pos <= at < nodes.len() && nodes[at] == u && segment_draw(
                draws[visit_rank(nodes, pos, at, u)],
                at,
                neg_from,
            ) && forall|j: int|
                pos <= j < at && #[trigger] nodes[j] == u ==> !segment_draw(
                    draws[visit_rank(nodes, pos, j, u)],
                    j,
                    neg_from,
                )
            &&& skip ==> forall|j: int|
                pos <= j < nodes.len() && #[trigger] nodes[j] == u ==> !segment_draw(
                    draws[visit_rank(nodes, pos, j, u)],
                    j,
                    neg_from,
                )
        }),
{
    let neg_from = positive_end(walk.nodes.len(), walk.negative_segment_start) as int;
    lemma_addition_scan(walk.nodes, neg_from, pos, pos, u, draws, 0, pos);
}

/// Decides whether a walk visited at `pos` may keep its continuation when the edge
/// `edge` is deleted; fails when `pos` is not a position of the walk.
pub fn decide_skip_invalidation_on_edge_deletion(
    walk: &RandomWalk,
    pos: usize,
    edge: EdgeId,
) -> (decision: Result<(bool, usize), MeritRankError>)
    ensures
        pos >= walk.nodes@.len() ==> decision == Err::<(bool, usize), MeritRankError>(
            MeritRankError::InternalFatalError(Some(internal_fatal::WALK_DECIDE_SKIP_DELETION_POS)),
        ),
        pos < walk.nodes@.len() ==> (decision matches Ok((skip, at)) && (skip, at as int)
            == deletion_decision(walk.nodes@, pos as int, edge.0, edge.1)),
        decision matches Ok((skip, at)) ==> {
            let nodes = walk.nodes@;
            &&& !skip ==> pos <= at && at + 1 < nodes.len() && nodes[at as int] == edge.0 && nodes[at
                + 1] == edge.1 && forall|j: int|
                pos <= j < at ==> !(#[trigger] nodes[j] == edge.0 && nodes[j + 1] == edge.1)
            &&& skip ==> at == pos && forall|j: int|
                pos <= j && j + 1 < nodes.len() ==> !(#[trigger] nodes[j] == edge.0 && nodes[j + 1]
                    == edge.1)
        },
{
    proof {
        if pos < walk.nodes@.len() {
            lemma_deletion_decision(walk.nodes@, pos as int, edge.0, edge.1);
        }
    }
    let len = walk.nodes.len();
    if pos >= len {
        return Err(
            MeritRankError::InternalFatalError(Some(internal_fatal::WALK_DECIDE_SKIP_DELETION_POS)),
        );
    }
    let invalidated_node = edge.0;
    let dst_node = edge.1;
    if pos == len - 1 {
        return Ok((true, pos));
    }
    let mut i = pos;
    while i < len - 1
        invariant
            pos <= i <= len - 1,
            len == walk.nodes@.len(),
            pos < len - 1,
            invalidated_node == edge.0,
            dst_node == edge.1,
            first_step_from(walk.nodes@, pos as int, invalidated_node, dst_node)
                == first_step_from(walk.nodes@, i as int, invalidated_node, dst_node),
        decreases len - 1 - i,
    {
        if walk.nodes[i] == invalidated_node && walk.nodes[i + 1] == dst_node {
            proof {
                assert(first_step_from(walk.nodes@, i as int, invalidated_node, dst_node) == Some(
                    i as int,
                ));
                assert(deletion_decision(walk.nodes@, pos as int, invalidated_node, dst_node) == (
                    false,
                    i as int,
                ));
                lemma_deletion_decision(walk.nodes@, pos as int, edge.0, edge.1);
            }
            return Ok((false, i));
        }
        i = i + 1;
    }
    Ok((true, pos))
}

/// Decides whether a walk visited at `pos` may keep its continuation when a new edge
/// leaves `edge.0`. `draws[k]` holds the two draws for the `k`-th visit of `edge.0` at
/// or after `pos`: whether it is recomputed under the probability of the walk's
/// positive part, and under that of its negative segment; a visit before the
/// negative segment uses the first, one in it the second. Fails when `pos` is not a
/// position of the walk.
pub fn decide_skip_invalidation_on_edge_addition(
    walk: &RandomWalk,
    pos: usize,
    edge: EdgeId,
    draws: &[(bool, bool)],
) -> (decision: Result<(bool, usize), MeritRankError>)
    requires
        draws@.len() >= visits_from(walk.nodes@, pos as int, edge.0),
    ensures
        pos >= walk.nodes@.len() ==> decision == Err::<(bool, usize), MeritRankError>(
            MeritRankError::InternalFatalError(Some(internal_fatal::WALK_DECIDE_SKIP_ADDITION_POS)),
        ),
        pos < walk.nodes@.len() ==> (decision matches Ok((skip, at)) && (skip, at as int)
            == addition_decision(walk@, pos as int, edge.0, draws@)),
        decision matches Ok((skip, at)) ==> {
            let nodes = walk.nodes@;
            let neg_from = positive_end(nodes.len(), walk.negative_segment_start) as int;
            &&& !skip ==> pos <= at < nodes.len() && nodes[at as int] == edge.0 && segment_draw(
                draws@[visit_rank(nodes, pos as int, at as int, edge.0)],
                at as int,
                neg_from,
            ) && forall|j: int|
                pos <= j < at && #[trigger] nodes[j] == edge.0 ==> !segment_draw(
                    draws@[visit_rank(nodes, pos as int, j, edge.0)],
                    j,
                    neg_from,
                )
            &&& skip ==> forall|j: int|
                pos <= j < nodes.len() && #[trigger] nodes[j] == edge.0 ==> !segment_draw(
                    draws@[visit_rank(nodes, pos as int, j, edge.0)],
                    j,
                    neg_from,
                )
        },
{
    proof {
        if pos < walk.nodes@.len() {
            lemma_addition_decision(walk@, pos as int, edge.0, draws@);
        }
    }
    let len = walk.nodes.len();
    if pos >= len {
        return Err(
            MeritRankError::InternalFatalError(Some(internal_fatal::WALK_DECIDE_SKIP_ADDITION_POS)),
        );
    }
    let neg_from = match walk.negative_segment_start {
        Some(start) => if start <= len {
            start
        } else {
            len
        },
        None => len,
    };
    let invalidated_node = edge.0;
    let mut new_pos = pos;
    let mut k: usize = 0;
    let mut i = pos;
    while i < len
        invariant
            pos <= i <= len,
            len == walk.nodes@.len(),
            neg_from == positive_end(walk.nodes@.len(), walk.negative_segment_start),
            pos <= new_pos < len,
            invalidated_node == edge.0,
            k + visits_from(walk.nodes@, i as int, invalidated_node) == visits_from(
                walk.nodes@,
                pos as int,
                invalidated_node,
            ),
            draws@.len() >= visits_from(walk.nodes@, pos as int, invalidated_node),
            addition_decision(walk@, pos as int, invalidated_node, draws@) == addition_scan(
                walk.nodes@,
                neg_from as int,
                i as int,
                invalidated_node,
                draws@,
                k as int,
                new_pos as int,
            ),
        decreases len - i,
    {
        if walk.nodes[i] == invalidated_node {
            new_pos = i;
            let (positive_draw, negative_draw) = draws[k];
            let recompute = if i < neg_from {
                positive_draw
            } else {
                negative_draw
            };
            if recompute {
                proof {
                    assert(addition_scan(
                        walk.nodes@,
                        neg_from as int,
                        i as int,
                        invalidated_node,
                        draws@,
                        k as int,
                        i as int,
                    ) == (false, i as int));
                    lemma_addition_decision(walk@, pos as int, edge.0, draws@);
                }
                return Ok((false, new_pos));
            }
            k = k + 1;
        }
        i = i + 1;
    }
    Ok((true, new_pos))
}

/// Decides whether a walk visited at `pos` may keep its continuation when the edge
/// changes: with draws, as for a new edge leaving `edge.0`; without, as for the
/// deletion of `edge`.
pub fn decide_skip_invalidation(
    walk: &RandomWalk,
    pos: usize,
    edge: EdgeId,
    draws: Option<&[(bool, bool)]>,
) -> (decision: Result<(bool, usize), MeritRankError>)
    requires
        draws matches Some(d) ==> d@.len() >= visits_from(walk.nodes@, pos as int, edge.0),
    ensures
        pos >= walk.nodes@.len() ==> decision is Err,
        pos < walk.nodes@.len() ==> (decision matches Ok((skip, at)) && (skip, at as int) == match draws {
            Some(d) => addition_decision(walk@, pos as int, edge.0, d@),
            None => deletion_decision(walk.nodes@, pos as int, edge.0, edge.1),
        }),
{
    match draws {
        Some(d) => decide_skip_invalidation_on_edge_addition(walk, pos, edge, d),
        None => decide_skip_invalidation_on_edge_deletion(walk, pos, edge),
    }
}

/// Number of visits of `node` at or after position `pos` of the walk: the number of
/// draws that [`decide_skip_invalidation_on_edge_addition`] may need.
pub fn count_visits_from(walk: &RandomWalk, pos: usize, node: NodeId) -> (count: usize)
    ensures
        count == visits_from(walk.nodes@, pos as int, node),
{
    let len = walk.nodes.len();
    if pos >= len {
        return 0;
    }
    let mut count: usize = 0;
    let mut i = len;
    while i > pos
        invariant
            pos <= i <= len,
            len == walk.nodes@.len(),
            count == visits_from(walk.nodes@, i as int, node),
            count <= len - i,
        decreases i,
    {
        i = i - 1;
        if walk.nodes[i] == node {
            count = count + 1;
        }
    }
    count
}

/// The visit index after recording that walk `w` visits `node` at `pos`: the index
/// grows to cover the node, and a visit already recorded for the walk at the node is
/// kept.
pub open spec fn record_visit(visits: Seq<Map<WalkId, usize>>, w: WalkId, pos: usize, node: NodeId) -> Seq<
    Map<WalkId, usize>,
> {
    let grown = if visits.len() <= node {
        visits + Seq::new((node + 1 - visits.len()) as nat, |i: int| Map::<WalkId, usize>::empty())
    } else {
        visits
    };
    if grown[node as int].contains_key(w) {
        grown
    } else {
        grown.update(node as int, grown[node as int].insert(w, pos))
    }
}

/// The visit index after recording the visits of walk `w` at the positions
/// `start..end` of `nodes`, in order.
pub open spec fn record_visits(
    visits: Seq<Map<WalkId, usize>>,
    w: WalkId,
    nodes: Seq<NodeId>,
    start: int,
    end: int,
) -> Seq<Map<WalkId, usize>>
    decreases end - start,
{
    if end <= start {
        visits
    } else {
        record_visit(
            record_visits(visits, w, nodes, start, end - 1),
            w,
            (end - 1) as usize,
            nodes[end - 1],
        )
    }
}

/// The visit index after walk `w` was cut into `kept` and `cut`: the walk no longer
/// visits the nodes that only the cut-off part visited.
pub open spec fn split_visits(
    visits: Seq<Map<WalkId, usize>>,
    w: WalkId,
    kept: Seq<NodeId>,
    cut: Seq<NodeId>,
) -> Seq<Map<WalkId, usize>> {
    Seq::new(
        visits.len(),
        |n: int|
            if cut.contains(n as NodeId) && !kept.contains(n as NodeId) {
                visits[n].remove(w)
            } else {
                visits[n]
            },
    )
}

/// The walk that remains when `walk` is cut at `at`.
pub open spec fn kept_walk(walk: WalkView, at: int) -> WalkView {
    WalkView {
        nodes: walk.nodes.subrange(0, at),
        negative_segment_start: crate::random_walk::kept_negative_start(
            walk.negative_segment_start,
            at as usize,
        ),
    }
}

/// A sequence with one more element contains exactly what it contained before and
/// the new element.
pub proof fn lemma_push_contains<A>(s: Seq<A>, x: A, y: A)
    ensures
        s.push(x).contains(y) <==> s.contains(y) || y == x,
{
    if s.contains(y) {
        let t = choose|t: int| 0 <= t < s.len() && s[t] == y;
        assert(s.push(x)[t] == y);
    }
    if y == x {
        assert(s.push(x)[s.len() as int] == y);
    }
    if s.push(x).contains(y) && y != x {
        let t = choose|t: int| 0 <= t < s.push(x).len() && s.push(x)[t] == y;
        assert(s[t] == y);
    }
}

impl WalkStorage {
    /// Every visit map of a storage is finite.
    pub proof fn lemma_visits_finite(&self)
        ensures
            forall|n: int| 0 <= n < self@.visits.len() ==> #[trigger] self@.visits[n].dom().finite(),
    {
        assert forall|n: int| 0 <= n < self@.visits.len() implies #[trigger] self@.visits[n].dom().finite() by {
            assert(self@.visits[n] == self.visits@[n]@);
        }
    }
}

/// The walks whose visit of `node` is at position zero: the walks that start there.
pub open spec fn walks_starting_at(visits: Seq<Map<WalkId, usize>>, node: NodeId) -> Set<WalkId> {
    Set::new(
        |w: WalkId|
            node < visits.len() && visits[node as int].contains_key(w) && visits[node as int][w]
                == 0,
    )
}

/// A walk with its nodes removed; the negative segment marker is kept.
pub open spec fn cleared_walk(walk: WalkView) -> WalkView {
    WalkView { nodes: Seq::empty(), negative_segment_start: walk.negative_segment_start }
}

/// The walks after the walks in `gone` were cleared.
pub open spec fn walks_cleared(walks: Seq<WalkView>, gone: Set<WalkId>) -> Seq<WalkView> {
    Seq::new(
        walks.len(),
        |i: int|
            if gone.contains(i as WalkId) {
                cleared_walk(walks[i])
            } else {
                walks[i]
            },
    )
}

/// The walks of `gone` that visit `node`.
pub open spec fn gone_visitors(walks: Seq<WalkView>, gone: Set<WalkId>, node: NodeId) -> Set<
    WalkId,
> {
    Set::new(|w: WalkId| gone.contains(w) && w < walks.len() && walks[w as int].nodes.contains(node))
}

/// The visit index after the visits of the walks in `gone` were removed from every
/// node that they visit.
pub open spec fn visits_without(
    visits: Seq<Map<WalkId, usize>>,
    walks: Seq<WalkView>,
    gone: Set<WalkId>,
) -> Seq<Map<WalkId, usize>> {
    Seq::new(
        visits.len(),
        |n: int| visits[n].remove_keys(gone_visitors(walks, gone, n as NodeId)),
    )
}

/// The keys of the entries whose value is zero, in order.
pub open spec fn zero_keys(pairs: Seq<(&WalkId, &usize)>) -> Seq<WalkId>
    decreases pairs.len(),
{
    if pairs.len() == 0 {
        Seq::empty()
    } else {
        zero_keys(pairs.drop_last()) + if *pairs.last().1 == 0 {
            seq![*pairs.last().0]
        } else {
            Seq::empty()
        }
    }
}

proof fn lemma_zero_keys(pairs: Seq<(&WalkId, &usize)>, w: WalkId)
    ensures
        zero_keys(pairs).contains(w) <==> exists|j: int|
            0 <= j < pairs.len() && *(#[trigger] pairs[j]).0 == w && *pairs[j].1 == 0,
    decreases pairs.len(),
{
    if pairs.len() > 0 {
        let init = pairs.drop_last();
        lemma_zero_keys(init, w);
        let tail: Seq<WalkId> = if *pairs.last().1 == 0 {
            seq![*pairs.last().0]
        } else {
            Seq::empty()
        };
        assert(zero_keys(pairs) == zero_keys(init) + tail);
        if zero_keys(pairs).contains(w) {
            let i = choose|i: int| 0 <= i < zero_keys(pairs).len() && zero_keys(pairs)[i] == w;
            if i < zero_keys(init).len() {
                assert(zero_keys(init)[i] == w);
                let j = choose|j: int| 0 <= j < init.len() && *(#[trigger] init[j]).0 == w && *init[j].1 == 0;
                assert(pairs[j] == init[j]);
            } else {
                assert(pairs[pairs.len() - 1] == pairs.last());
            }
        }
        if exists|j: int| 0 <= j < pairs.len() && *(#[trigger] pairs[j]).0 == w && *pairs[j].1 == 0 {
            let j = choose|j: int| 0 <= j < pairs.len() && *(#[trigger] pairs[j]).0 == w && *pairs[j].1 == 0;
            if j < init.len() {
                assert(init[j] == pairs[j]);
                let i = choose|i: int| 0 <= i < zero_keys(init).len() && zero_keys(init)[i] == w;
                assert(zero_keys(pairs)[i] == w);
            } else {
                assert(zero_keys(pairs)[zero_keys(init).len() as int] == w);
            }
        }
    }
}

/// The entries that iterating a visit map yields name each walk of the map exactly
/// once, together with its position.
proof fn lemma_visit_entries(visits: Map<WalkId, usize>, pairs: Seq<(&WalkId, &usize)>)
    requires
        visits.dom().finite(),
        pairs.len() == visits.dom().len(),
        forall|j: int|
            0 <= j < pairs.len() ==> visits.contains_key(*(#[trigger] pairs[j]).0) && visits[*pairs[j].0]
                == *pairs[j].1,
        forall|k: WalkId| #[trigger] visits.contains_key(k) ==> pairs.contains((&k, &visits[k])),
    ensures
        forall|a: int, b: int|
            0 <= a < pairs.len() && 0 <= b < pairs.len() && a != b ==> *(#[trigger] pairs[a]).0
                != *(#[trigger] pairs[b]).0,
{
    let ks = pairs.map_values(|p: (&WalkId, &usize)| *p.0);
    assert forall|k: WalkId| #[trigger] ks.to_set().contains(k) <==> visits.dom().contains(k) by {
        if visits.contains_key(k) {
            let j = choose|j: int| 0 <= j < pairs.len() && pairs[j] == (&k, &visits[k]);
            assert(ks[j] == k);
        }
        if ks.contains(k) {
            let j = choose|j: int| 0 <= j < ks.len() && ks[j] == k;
            assert(visits.contains_key(*pairs[j].0));
        }
    }
    assert(ks.to_set() =~= visits.dom());
    ks.lemma_no_dup_set_cardinality();
    assert forall|a: int, b: int|
        0 <= a < pairs.len() && 0 <= b < pairs.len() && a != b implies *(#[trigger] pairs[a]).0
            != *(#[trigger] pairs[b]).0 by {
        assert(ks[a] == *pairs[a].0 && ks[b] == *pairs[b].0);
    }
}

proof fn lemma_zero_keys_unique(pairs: Seq<(&WalkId, &usize)>)
    requires
        forall|a: int, b: int|
            0 <= a < pairs.len() && 0 <= b < pairs.len() && a != b ==> *(#[trigger] pairs[a]).0
                != *(#[trigger] pairs[b]).0,
    ensures
        zero_keys(pairs).no_duplicates(),
    decreases pairs.len(),
{
    if pairs.len() > 0 {
        let init = pairs.drop_last();
        assert forall|a: int, b: int|
            0 <= a < init.len() && 0 <= b < init.len() && a != b implies *(#[trigger] init[a]).0
                != *(#[trigger] init[b]).0 by {
            assert(init[a] == pairs[a] && init[b] == pairs[b]);
        }
        lemma_zero_keys_unique(init);
        if *pairs.last().1 == 0 {
            let k = *pairs.last().0;
            lemma_zero_keys(init, k);
            if zero_keys(init).contains(k) {
                let j = choose|j: int| 0 <= j < init.len() && *(#[trigger] init[j]).0 == k && *init[j].1 == 0;
                assert(pairs[j] == init[j]);
                assert(pairs[pairs.len() - 1] == pairs.last());
            }
            assert(zero_keys(pairs) == zero_keys(init).push(k));
        } else {
            assert(zero_keys(pairs) =~= zero_keys(init));
        }
    }
}

/// Whether every recorded visit names a stored walk and one of its positions.
pub open spec fn visits_in_range(v: StorageView) -> bool {
    forall|n: int, w: WalkId|
        0 <= n < v.visits.len() && #[trigger] v.visits[n].contains_key(w) ==> w < v.walks.len()
            && v.visits[n][w] < v.walks[w as int].nodes.len()
}

/// Whether every recorded visit is a visit of its node: the walk is at that node at
/// the recorded position.
pub open spec fn visits_point_to_their_nodes(v: StorageView) -> bool {
    forall|n: int, w: WalkId|
        0 <= n < v.visits.len() && #[trigger] v.visits[n].contains_key(w) ==> v.walks[w as int].nodes[v.visits[n][w] as int]
            == n
}

/// The position from which walk `w`, recorded as visiting `node`, has to be
/// recomputed when an edge from `node` changes, or `None` if it may be kept. Without
/// a destination every visiting walk is affected at its recorded position; with one,
/// the decision is that of a new edge (with the walk's draws) or of a deleted edge.
pub open spec fn affected_position(
    v: StorageView,
    node: NodeId,
    dst: Option<NodeId>,
    draws: Option<Map<WalkId, Seq<(bool, bool)>>>,
    w: WalkId,
) -> Option<usize> {
    let pos = v.visits[node as int][w];
    match dst {
        None => Some(pos),
        Some(d) => {
            let nodes = v.walks[w as int].nodes;
            let (skip, at) = match draws {
                Some(m) => addition_decision(v.walks[w as int], pos as int, node, m[w]),
                None => deletion_decision(nodes, pos as int, node, d),
            };
            if skip {
                None
            } else {
                Some(at as usize)
            }
        },
    }
}

/// When the edge `node -> d` is deleted, a walk recorded as visiting `node` at
/// `pos` has to be recomputed exactly when it steps from `node` to `d` at or after
/// `pos`, and then from the first such step.
pub proof fn lemma_deleted_edge_affected_position(v: StorageView, node: NodeId, d: NodeId, w: WalkId)
    requires
        node < v.visits.len(),
        v.visits[node as int].contains_key(w),
        w < v.walks.len(),
        v.visits[node as int][w] < v.walks[w as int].nodes.len(),
        v.walks[w as int].nodes.len() <= usize::MAX,
    ensures
        ({
            let pos = v.visits[node as int][w] as int;
            let nodes = v.walks[w as int].nodes;
            match affected_position(v, node, Some(d), None, w) {
                Some(at) => pos <= at && at + 1 < nodes.len() && nodes[at as int] == node
                    && nodes[at + 1] == d && forall|j: int|
                    pos <= j < at ==> !(#[trigger] nodes[j] == node && nodes[j + 1] == d),
                None => forall|j: int|
                    pos <= j && j + 1 < nodes.len() ==> !(#[trigger] nodes[j] == node && nodes[j + 1]
                        == d),
            }
        }),
{
    let pos = v.visits[node as int][w] as int;
    let nodes = v.walks[w as int].nodes;
    lemma_deletion_decision(nodes, pos, node, d);
    let (skip, at) = deletion_decision(nodes, pos, node, d);
    if !skip {
        assert(affected_position(v, node, Some(d), None, w) == Some(at as usize));
    }
}

/// When a new edge leaves `node`, a walk recorded as visiting `node` at `pos` has to
/// be recomputed exactly when the draw for the segment of some visit of `node` at or
/// after `pos` holds, and then from the first such visit.
pub proof fn lemma_added_edge_affected_position(
    v: StorageView,
    node: NodeId,
    d: NodeId,
    draws: Map<WalkId, Seq<(bool, bool)>>,
    w: WalkId,
)
    requires
        node < v.visits.len(),
        v.visits[node as int].contains_key(w),
        w < v.walks.len(),
        v.visits[node as int][w] < v.walks[w as int].nodes.len(),
        v.walks[w as int].nodes.len() <= usize::MAX,
        draws[w].len() >= visits_from(v.walks[w as int].nodes, v.visits[node as int][w] as int, node),
    ensures
        ({
            let pos = v.visits[node as int][w] as int;
            let walk = v.walks[w as int];
            let nodes = walk.nodes;
            let neg_from = positive_end(nodes.len(), walk.negative_segment_start) as int;
            match affected_position(v, node, Some(d), Some(draws), w) {
                Some(at) => pos <= at < nodes.len() && nodes[at as int] == node && segment_draw(
                    draws[w][visit_rank(nodes, pos, at as int, node)],
                    at as int,
                    neg_from,
                ) && forall|j: int|
                    pos <= j < at && #[trigger] nodes[j] == node ==> !segment_draw(
                        draws[w][visit_rank(nodes, pos, j, node)],
                        j,
                        neg_from,
                    ),
                None => forall|j: int|
                    pos <= j < nodes.len() && #[trigger] nodes[j] == node ==> !segment_draw(
                        draws[w][visit_rank(nodes, pos, j, node)],
                        j,
                        neg_from,
                    ),
            }
        }),
{
    let pos = v.visits[node as int][w] as int;
    let walk = v.walks[w as int];
    lemma_addition_decision(walk, pos, node, draws[w]);
    let (skip, at) = addition_decision(walk, pos, node, draws[w]);
    if !skip {
        assert(affected_position(v, node, Some(d), Some(draws), w) == Some(at as usize));
    }
}

/// Whether some walk recorded as visiting `node` is not stored, or not that long.
pub open spec fn visit_out_of_range(v: StorageView, node: NodeId) -> bool {
    node < v.visits.len() && exists|w: WalkId|
        #[trigger] v.visits[node as int].contains_key(w) && (w >= v.walks.len()
            || v.visits[node as int][w] >= v.walks[w as int].nodes.len())
}

/// The affected walks among the visit entries `pairs`, in order, each with the
/// position from which it has to be recomputed.
pub open spec fn affected_list(
    v: StorageView,
    node: NodeId,
    dst: Option<NodeId>,
    draws: Option<Map<WalkId, Seq<(bool, bool)>>>,
    pairs: Seq<(&WalkId, &usize)>,
) -> Seq<(WalkId, usize)>
    decreases pairs.len(),
{
    if pairs.len() == 0 {
        Seq::empty()
    } else {
        let prev = affected_list(v, node, dst, draws, pairs.drop_last());
        let w = *pairs.last().0;
        match affected_position(v, node, dst, draws, w) {
            Some(at) => prev.push((w, at)),
            None => prev,
        }
    }
}

proof fn lemma_affected_list(
    v: StorageView,
    node: NodeId,
    dst: Option<NodeId>,
    draws: Option<Map<WalkId, Seq<(bool, bool)>>>,
    pairs: Seq<(&WalkId, &usize)>,
)
    requires
        forall|a: int, b: int|
            0 <= a < pairs.len() && 0 <= b < pairs.len() && a != b ==> *(#[trigger] pairs[a]).0
                != *(#[trigger] pairs[b]).0,
    ensures
        ({
            let list = affected_list(v, node, dst, draws, pairs);
            &&& list.map_values(|a: (WalkId, usize)| a.0).no_duplicates()
            &&& forall|i: int| 0 <= i < list.len() ==> exists|j: int|
                0 <= j < pairs.len() && *(#[trigger] pairs[j]).0 == (#[trigger] list[i]).0
                    && affected_position(v, node, dst, draws, list[i].0) == Some(list[i].1)
            &&& forall|j: int|
                0 <= j < pairs.len() && affected_position(v, node, dst, draws, *(#[trigger] pairs[j]).0) is Some
                    ==> list.contains(
                    (*pairs[j].0, affected_position(v, node, dst, draws, *pairs[j].0)->0),
                )
        }),
    decreases pairs.len(),
{
    if pairs.len() > 0 {
        let init = pairs.drop_last();
        assert forall|a: int, b: int|
            0 <= a < init.len() && 0 <= b < init.len() && a != b implies *(#[trigger] init[a]).0
                != *(#[trigger] init[b]).0 by {
            assert(init[a] == pairs[a] && init[b] == pairs[b]);
        }
        lemma_affected_list(v, node, dst, draws, init);
        let prev = affected_list(v, node, dst, draws, init);
        let list = affected_list(v, node, dst, draws, pairs);
        let w = *pairs.last().0;
        let last = pairs.len() - 1;
        assert(pairs[last] == pairs.last());
        match affected_position(v, node, dst, draws, w) {
            Some(at) => {
                assert(list == prev.push((w, at)));
                assert(list.map_values(|a: (WalkId, usize)| a.0) =~= prev.map_values(
                    |a: (WalkId, usize)| a.0,
                ).push(w));
                assert forall|i: int| 0 <= i < prev.len() implies prev[i].0 != w by {
                    let j = choose|j: int|
                        0 <= j < init.len() && *(#[trigger] init[j]).0 == (#[trigger] prev[i]).0
                            && affected_position(v, node, dst, draws, prev[i].0) == Some(prev[i].1);
                    assert(init[j] == pairs[j]);
                }
                assert forall|i: int| 0 <= i < list.len() implies exists|j: int|
                    0 <= j < pairs.len() && *(#[trigger] pairs[j]).0 == (#[trigger] list[i]).0
                        && affected_position(v, node, dst, draws, list[i].0) == Some(list[i].1) by {
                    if i < prev.len() {
                        assert(list[i] == prev[i]);
                        let j = choose|j: int|
                            0 <= j < init.len() && *(#[trigger] init[j]).0 == (#[trigger] prev[i]).0
                                && affected_position(v, node, dst, draws, prev[i].0) == Some(prev[i].1);
                        assert(init[j] == pairs[j]);
                    } else {
                        assert(*pairs[last].0 == list[i].0);
                    }
                }
                assert forall|j: int|
                    0 <= j < pairs.len() && affected_position(v, node, dst, draws, *(#[trigger] pairs[j]).0) is Some
                        implies list.contains(
                    (*pairs[j].0, affected_position(v, node, dst, draws, *pairs[j].0)->0),
                ) by {
                    if j < init.len() {
                        assert(init[j] == pairs[j]);
                        let x = (*pairs[j].0, affected_position(v, node, dst, draws, *pairs[j].0)->0);
                        let i = choose|i: int| 0 <= i < prev.len() && prev[i] == x;
                        assert(list[i] == x);
                    } else {
                        assert(list[prev.len() as int] == (w, at));
                    }
                }
            },
            None => {
                assert(list == prev);
                assert forall|i: int| 0 <= i < list.len() implies exists|j: int|
                    0 <= j < pairs.len() && *(#[trigger] pairs[j]).0 == (#[trigger] list[i]).0
                        && affected_position(v, node, dst, draws, list[i].0) == Some(list[i].1) by {
                    let j = choose|j: int|
                        0 <= j < init.len() && *(#[trigger] init[j]).0 == (#[trigger] prev[i]).0
                            && affected_position(v, node, dst, draws, prev[i].0) == Some(prev[i].1);
                    assert(init[j] == pairs[j]);
                }
                assert forall|j: int|
                    0 <= j < pairs.len() && affected_position(v, node, dst, draws, *(#[trigger] pairs[j]).0) is Some
                        implies list.contains(
                    (*pairs[j].0, affected_position(v, node, dst, draws, *pairs[j].0)->0),
                ) by {
                    if j < init.len() {
                        assert(init[j] == pairs[j]);
                    }
                }
            },
        }
    }
}

impl WalkStorage {
    /// Checks that every recorded visit is a visit of its node.
    pub fn assert_visits_consistency(&self) -> (result: Result<(), MeritRankError>)
        requires
            visits_in_range(self@),
        ensures
            result is Ok <==> visits_point_to_their_nodes(self@),
            result is Err ==> result == Err::<(), MeritRankError>(
                MeritRankError::InternalFatalError(Some(internal_fatal::WALK_STORAGE_ASSERT_VISITS)),
            ),
    {
        let ghost v = self@;
        let mut node: usize = 0;
        while node < self.visits.len()
            invariant
                v == self@,
                visits_in_range(v),
                0 <= node <= self.visits@.len(),
                forall|n: int, w: WalkId|
                    0 <= n < node && #[trigger] v.visits[n].contains_key(w) ==> v.walks[w as int].nodes[v.visits[n][w] as int]
                        == n,
            decreases self.visits@.len() - node,
        {
            let node_visits = &self.visits[node];
            let ghost pairs = spec_hash_map_iter(node_visits).remaining();
            proof {
                lemma_visit_entries(node_visits@, pairs);
            }
            for kv in it: node_visits.iter()
                invariant
                    it.seq() == pairs,
                    v == self@,
                    visits_in_range(v),
                    node < self.visits@.len(),
                    node_visits@ == v.visits[node as int],
                    forall|j: int| 0 <= j < pairs.len() ==> node_visits@.contains_key(*(#[trigger] pairs[j]).0)
                        && node_visits@[*pairs[j].0] == *pairs[j].1,
                    forall|j: int| 0 <= j < it.index() ==> v.walks[*(#[trigger] pairs[j]).0 as int].nodes[*pairs[j].1 as int]
                        == node,
            {
                let walk_id = *kv.0;
                let pos = *kv.1;
                proof {
                    assert(pairs[it.index()] == kv);
                    assert(v.visits[node as int].contains_key(walk_id));
                }
                if self.walks[walk_id].nodes[pos] != node {
                    return Err(
                        MeritRankError::InternalFatalError(
                            Some(internal_fatal::WALK_STORAGE_ASSERT_VISITS),
                        ),
                    );
                }
            }
            proof {
                assert forall|w: WalkId| #[trigger] v.visits[node as int].contains_key(w) implies v.walks[w as int].nodes[v.visits[node as int][w] as int]
                    == node by {
                    assert(pairs.contains((&w, &v.visits[node as int][w])));
                    let j = choose|j: int| 0 <= j < pairs.len() && pairs[j] == (&w, &v.visits[node as int][w]);
                    assert(*pairs[j].0 == w);
                }
            }
            node = node + 1;
        }
        Ok(())
    }

    /// The walks that have to be recomputed when an edge from `invalidated_node`
    /// changes, each with the position from which it has to be; see
    /// [`affected_position`]. With `dst_node`, `draws` (when given) holds for each walk
    /// that visits the node its draws for a new edge. Fails when a recorded visit of the
    /// node names a walk that is not stored or not that long.
    pub fn find_affected_walkids(
        &self,
        invalidated_node: NodeId,
        dst_node: Option<NodeId>,
        draws: Option<&HashMap<WalkId, Vec<(bool, bool)>>>,
    ) -> (result: Result<Vec<(WalkId, usize)>, MeritRankError>)
        requires
            dst_node is Some && draws is Some && invalidated_node < self@.visits.len() ==> forall|w: WalkId|
                #[trigger] self@.visits[invalidated_node as int].contains_key(w) && w < self@.walks.len()
                    ==> draws->0@.contains_key(w) && draws->0@[w]@.len() >= visits_from(
                    self@.walks[w as int].nodes,
                    self@.visits[invalidated_node as int][w] as int,
                    invalidated_node,
                ),
        ensures
            result is Err <==> dst_node is Some && visit_out_of_range(self@, invalidated_node),
            result matches Ok(affected) ==> {
                let draws_view = match draws {
                    Some(m) => Some(m@.map_values(|d: Vec<(bool, bool)>| d@)),
                    None => None,
                };
                &&& affected@.map_values(|a: (WalkId, usize)| a.0).no_duplicates()
                &&& forall|i: int| 0 <= i < affected@.len() ==> {
                    let (w, at) = #[trigger] affected@[i];
                    &&& invalidated_node < self@.visits.len()
                    &&& self@.visits[invalidated_node as int].contains_key(w)
                    &&& affected_position(self@, invalidated_node, dst_node, draws_view, w) == Some(at)
                }
                &&& forall|w: WalkId|
                    invalidated_node < self@.visits.len() && #[trigger] self@.visits[invalidated_node as int].contains_key(w)
                        && affected_position(self@, invalidated_node, dst_node, draws_view, w) is Some
                        ==> affected@.contains(
                        (w, affected_position(self@, invalidated_node, dst_node, draws_view, w)->0),
                    )
            },
            match (dst_node, result) {
                (Some(d), Ok(affected)) => draws is None ==> {
                &&& forall|i: int| 0 <= i < affected@.len() ==> {
                    let (w, at) = #[trigger] affected@[i];
                    let pos = self@.visits[invalidated_node as int][w] as int;
                    let nodes = self@.walks[w as int].nodes;
                    &&& pos <= at && at + 1 < nodes.len()
                    &&& nodes[at as int] == invalidated_node && nodes[at + 1] == d
                    &&& forall|j: int|
                        pos <= j < at ==> !(#[trigger] nodes[j] == invalidated_node && nodes[j + 1] == d)
                }
                &&& forall|w: WalkId, j: int|
                    invalidated_node < self@.visits.len() && #[trigger] self@.visits[
                        invalidated_node as int
                    ].contains_key(w) && self@.visits[invalidated_node as int][w] <= j && j + 1
                        < self@.walks[w as int].nodes.len() && #[trigger] self@.walks[w as int].nodes[j]
                        == invalidated_node && self@.walks[w as int].nodes[j + 1] == d
                        ==> exists|at: usize| #[trigger] affected@.contains((w, at))
                },
                _ => true,
            },
            match (dst_node, draws, result) {
                (Some(d), Some(m), Ok(affected)) => forall|i: int| 0 <= i < affected@.len() ==> {
                    let (w, at) = #[trigger] affected@[i];
                    let pos = self@.visits[invalidated_node as int][w] as int;
                    let walk = self@.walks[w as int];
                    let nodes = walk.nodes;
                    let neg_from = positive_end(nodes.len(), walk.negative_segment_start) as int;
                    let walk_draws = m@[w]@;
                    &&& pos <= at < nodes.len()
                    &&& nodes[at as int] == invalidated_node
                    &&& segment_draw(
                        walk_draws[visit_rank(nodes, pos, at as int, invalidated_node)],
                        at as int,
                        neg_from,
                    )
                    &&& forall|j: int|
                        pos <= j < at && #[trigger] nodes[j] == invalidated_node ==> !segment_draw(
                            walk_draws[visit_rank(nodes, pos, j, invalidated_node)],
                            j,
                            neg_from,
                        )
                },
                _ => true,
            },
    {
        let ghost v = self@;
        let ghost draws_view = match draws {
            Some(m) => Some(m@.map_values(|d: Vec<(bool, bool)>| d@)),
            None => None,
        };
        let mut affected: Vec<(WalkId, usize)> = Vec::new();
        if invalidated_node >= self.visits.len() {
            return Ok(affected);
        }
        let node_visits = &self.visits[invalidated_node];
        let ghost pairs = spec_hash_map_iter(node_visits).remaining();
        proof {
            lemma_visit_entries(node_visits@, pairs);
        }
        for kv in it: node_visits.iter()
            invariant
                it.seq() == pairs,
                v == self@,
                invalidated_node < self.visits@.len(),
                node_visits@ == v.visits[invalidated_node as int],
                forall|j: int| 0 <= j < pairs.len() ==> node_visits@.contains_key(*(#[trigger] pairs[j]).0)
                    && node_visits@[*pairs[j].0] == *pairs[j].1,
                forall|a: int, b: int|
                    0 <= a < pairs.len() && 0 <= b < pairs.len() && a != b ==> *(#[trigger] pairs[a]).0
                        != *(#[trigger] pairs[b]).0,
                dst_node is Some ==> forall|j: int| 0 <= j < it.index() ==> *(#[trigger] pairs[j]).0 < v.walks.len()
                    && *pairs[j].1 < v.walks[*pairs[j].0 as int].nodes.len(),
                affected@ == affected_list(v, invalidated_node, dst_node, draws_view, pairs.take(it.index())),
                draws_view == match draws {
                    Some(m) => Some(m@.map_values(|d: Vec<(bool, bool)>| d@)),
                    None => None,
                },
                dst_node is Some && draws is Some ==> forall|w: WalkId|
                    #[trigger] v.visits[invalidated_node as int].contains_key(w) && w < v.walks.len()
                        ==> draws->0@.contains_key(w) && draws->0@[w]@.len() >= visits_from(
                        v.walks[w as int].nodes,
                        v.visits[invalidated_node as int][w] as int,
                        invalidated_node,
                    ),
        {
            let walk_id = *kv.0;
            let visit_pos = *kv.1;
            let ghost idx = it.index();
            proof {
                assert(pairs[idx] == kv);
                assert(pairs.take(idx + 1).drop_last() =~= pairs.take(idx));
                assert(pairs.take(idx + 1).last() == kv);
                assert(v.visits[invalidated_node as int].contains_key(walk_id));
                assert(v.visits[invalidated_node as int][walk_id] == visit_pos);
            }
            match dst_node {
                None => {
                    affected.push((walk_id, visit_pos));
                },
                Some(d) => {
                    if walk_id >= self.walks.len() {
                        proof {
                            assert(visit_out_of_range(v, invalidated_node));
                        }
                        return Err(
                            MeritRankError::InternalFatalError(
                                Some(internal_fatal::WALK_STORAGE_FIND_AFFECTED_GET_WALK),
                            ),
                        );
                    }
                    let walk = &self.walks[walk_id];
                    let decision = match draws {
                        Some(m) => match m.get(&walk_id) {
                            Some(walk_draws) => decide_skip_invalidation(
                                walk,
                                visit_pos,
                                (invalidated_node, d),
                                Some(walk_draws.as_slice()),
                            ),
                            None => {
                                // excluded by the precondition
                                return Err(
                                    MeritRankError::InternalFatalError(
                                        Some(internal_fatal::WALK_STORAGE_FIND_AFFECTED_GET_WALK),
                                    ),
                                );
                            },
                        },
                        None => decide_skip_invalidation(
                            walk,
                            visit_pos,
                            (invalidated_node, d),
                            None,
                        ),
                    };
                    match decision {
                        Err(e) => {
                            proof {
                                assert(visit_out_of_range(v, invalidated_node));
                            }
                            return Err(e);
                        },
                        Ok((may_skip, new_pos)) => {
                            if !may_skip {
                                affected.push((walk_id, new_pos));
                            }
                        },
                    }
                },
            }
        }
        proof {
            assert(pairs.take(pairs.len() as int) =~= pairs);
            lemma_affected_list(v, invalidated_node, dst_node, draws_view, pairs);
            let list = affected@;
            assert forall|i: int| 0 <= i < list.len() implies {
                let (w, at) = #[trigger] list[i];
                &&& invalidated_node < v.visits.len()
                &&& v.visits[invalidated_node as int].contains_key(w)
                &&& affected_position(v, invalidated_node, dst_node, draws_view, w) == Some(at)
            } by {
                let j = choose|j: int|
                    0 <= j < pairs.len() && *(#[trigger] pairs[j]).0 == (#[trigger] list[i]).0
                        && affected_position(v, invalidated_node, dst_node, draws_view, list[i].0)
                        == Some(list[i].1);
            }
            assert forall|w: WalkId|
                #[trigger] v.visits[invalidated_node as int].contains_key(w) && affected_position(
                    v,
                    invalidated_node,
                    dst_node,
                    draws_view,
                    w,
                ) is Some implies list.contains(
                (w, affected_position(v, invalidated_node, dst_node, draws_view, w)->0),
            ) by {
                assert(pairs.contains((&w, &v.visits[invalidated_node as int][w])));
                let j = choose|j: int| 0 <= j < pairs.len() && pairs[j] == (&w, &v.visits[invalidated_node as int][w]);
                assert(*pairs[j].0 == w);
            }
            if dst_node is Some {
                assert(!visit_out_of_range(v, invalidated_node)) by {
                    assert forall|w: WalkId| #[trigger] v.visits[invalidated_node as int].contains_key(w)
                        implies !(w >= v.walks.len() || v.visits[invalidated_node as int][w]
                        >= v.walks[w as int].nodes.len()) by {
                        assert(pairs.contains((&w, &v.visits[invalidated_node as int][w])));
                        let j = choose|j: int| 0 <= j < pairs.len() && pairs[j] == (&w, &v.visits[invalidated_node as int][w]);
                        assert(*pairs[j].0 == w);
                    }
                }
            }
            if dst_node is Some && draws is Some {
                let d = dst_node->0;
                let dm = draws_view->0;
                assert forall|i: int| 0 <= i < list.len() implies {
                    let (w, at) = #[trigger] list[i];
                    let pos = v.visits[invalidated_node as int][w] as int;
                    let walk = v.walks[w as int];
                    let nodes = walk.nodes;
                    let neg_from = positive_end(nodes.len(), walk.negative_segment_start) as int;
                    let walk_draws = draws->0@[w]@;
                    &&& pos <= at < nodes.len()
                    &&& nodes[at as int] == invalidated_node
                    &&& segment_draw(
                        walk_draws[visit_rank(nodes, pos, at as int, invalidated_node)],
                        at as int,
                        neg_from,
                    )
                    &&& forall|j: int|
                        pos <= j < at && #[trigger] nodes[j] == invalidated_node ==> !segment_draw(
                            walk_draws[visit_rank(nodes, pos, j, invalidated_node)],
                            j,
                            neg_from,
                        )
                } by {
                    let w = list[i].0;
                    assert(v.visits[invalidated_node as int].contains_key(w));
                    assert(!(w >= v.walks.len() || v.visits[invalidated_node as int][w]
                        >= v.walks[w as int].nodes.len()));
                    assert(self.walks@[w as int].nodes.len() == self.walks@[w as int].nodes@.len()) by {
                        broadcast use vstd::std_specs::vec::axiom_spec_len;
                    }
                    assert(draws->0@.contains_key(w));
                    assert(dm[w] == draws->0@[w]@);
                    lemma_added_edge_affected_position(v, invalidated_node, d, dm, w);
                }
            }
            if dst_node is Some && draws is None {
                let d = dst_node->0;
                assert forall|i: int| 0 <= i < list.len() implies {
                    let (w, at) = #[trigger] list[i];
                    let pos = v.visits[invalidated_node as int][w] as int;
                    let nodes = v.walks[w as int].nodes;
                    &&& pos <= at && at + 1 < nodes.len()
                    &&& nodes[at as int] == invalidated_node && nodes[at + 1] == d
                    &&& forall|j: int|
                        pos <= j < at ==> !(#[trigger] nodes[j] == invalidated_node && nodes[j + 1] == d)
                } by {
                    let w = list[i].0;
                    assert(v.visits[invalidated_node as int].contains_key(w));
                    assert(!(w >= v.walks.len() || v.visits[invalidated_node as int][w]
                        >= v.walks[w as int].nodes.len()));
                    assert(self.walks@[w as int].nodes.len() == self.walks@[w as int].nodes@.len()) by {
                        broadcast use vstd::std_specs::vec::axiom_spec_len;
                    }
                    lemma_deleted_edge_affected_position(v, invalidated_node, d, w);
                }
                assert forall|w: WalkId, j: int|
                    invalidated_node < v.visits.len() && #[trigger] v.visits[invalidated_node as int].contains_key(w)
                        && v.visits[invalidated_node as int][w] <= j && j + 1 < v.walks[w as int].nodes.len()
                        && #[trigger] v.walks[w as int].nodes[j] == invalidated_node
                        && v.walks[w as int].nodes[j + 1] == d implies exists|at: usize| #[trigger] list.contains((w, at)) by {
                    assert(!(w >= v.walks.len() || v.visits[invalidated_node as int][w]
                        >= v.walks[w as int].nodes.len()));
                    assert(self.walks@[w as int].nodes.len() == self.walks@[w as int].nodes@.len()) by {
                        broadcast use vstd::std_specs::vec::axiom_spec_len;
                    }
                    lemma_deleted_edge_affected_position(v, invalidated_node, d, w);
                    let at = affected_position(v, invalidated_node, dst_node, draws_view, w)->0;
                    assert(list.contains((w, at)));
                }
            }
        }
        Ok(affected)
    }

    /// Drops the walks that start at `node`: their visits are removed from the visit
    /// index, their nodes are cleared, and their ids are queued for reuse, in the
    /// order in which the index yields them. Fails when such a walk is not stored.
    pub fn drop_walks_from_node(&mut self, node: NodeId) -> (result: Result<(), MeritRankError>)
        ensures
            result is Ok <==> forall|w: WalkId| #[trigger] walks_starting_at(old(self)@.visits, node).contains(w)
                ==> w < old(self)@.walks.len(),
            result is Err ==> result == Err::<(), MeritRankError>(
                MeritRankError::InternalFatalError(Some(internal_fatal::WALK_STORAGE_DROP_WALKS_GET_MUT)),
            ),
            result is Ok ==> {
                let gone = walks_starting_at(old(self)@.visits, node);
                &&& final(self)@.walks == walks_cleared(old(self)@.walks, gone)
                &&& final(self)@.visits == visits_without(old(self)@.visits, old(self)@.walks, gone)
                &&& exists|order: Seq<WalkId>| #![trigger order.to_set()]
                    order.no_duplicates() && order.to_set() == gone && final(self)@.unused
                        == old(self)@.unused + order
            },
    {
        if node >= self.visits.len() {
            proof {
                let gone = walks_starting_at(old(self)@.visits, node);
                assert(gone =~= Set::<WalkId>::empty());
                assert(self@.walks =~= walks_cleared(old(self)@.walks, gone));
                assert forall|n: int| 0 <= n < self@.visits.len() implies #[trigger] self@.visits[n]
                    == visits_without(old(self)@.visits, old(self)@.walks, gone)[n] by {
                    assert(gone_visitors(old(self)@.walks, gone, n as NodeId) =~= Set::<WalkId>::empty());
                    assert(self@.visits[n].remove_keys(Set::<WalkId>::empty()) =~= self@.visits[n]);
                }
                assert(self@.visits =~= visits_without(old(self)@.visits, old(self)@.walks, gone));
                let order = Seq::<WalkId>::empty();
                assert(order.to_set() =~= gone);
                assert(self@.unused =~= old(self)@.unused + order);
            }
            return Ok(());
        }
        let ghost visits0 = self@.visits;
        let ghost walks0 = self@.walks;
        let ghost unused0 = self@.unused;
        let ghost gone = walks_starting_at(visits0, node);
        let node_visits = &self.visits[node];
        let ghost pairs = spec_hash_map_iter(node_visits).remaining();
        proof {
            lemma_visit_entries(node_visits@, pairs);
        }
        let mut to_remove: Vec<WalkId> = Vec::new();
        for kv in it: node_visits.iter()
            invariant
                it.seq() == pairs,
                to_remove@ == zero_keys(pairs.take(it.index())),
        {
            if *kv.1 == 0 {
                to_remove.push(*kv.0);
            }
            proof {
                let t = pairs.take(it.index() + 1);
                assert(t.drop_last() =~= pairs.take(it.index()));
                assert(t.last() == kv);
            }
        }
        proof {
            assert(pairs.take(pairs.len() as int) =~= pairs);
            assert(to_remove@.no_duplicates()) by {
                lemma_zero_keys_unique(pairs);
            }
            assert forall|w: WalkId| #[trigger] to_remove@.to_set().contains(w) <==> gone.contains(w) by {
                lemma_zero_keys(pairs, w);
                if gone.contains(w) {
                    assert(pairs.contains((&w, &visits0[node as int][w])));
                }
            }
            assert(to_remove@.to_set() =~= gone);
            assert(to_remove@.take(0).to_set() =~= Set::<WalkId>::empty());
            assert(self@.walks =~= walks_cleared(walks0, Set::<WalkId>::empty()));
            assert forall|n: int| 0 <= n < visits0.len() implies #[trigger] self@.visits[n]
                == visits_without(visits0, walks0, Set::<WalkId>::empty())[n] by {
                assert(gone_visitors(walks0, Set::<WalkId>::empty(), n as NodeId) =~= Set::<WalkId>::empty());
                assert(visits0[n].remove_keys(Set::<WalkId>::empty()) =~= visits0[n]);
            }
            assert(self@.visits =~= visits_without(visits0, walks0, Set::<WalkId>::empty()));
            assert(self@.unused =~= unused0 + to_remove@.take(0));
        }
        let mut k: usize = 0;
        while k < to_remove.len()
            invariant
                0 <= k <= to_remove@.len(),
                to_remove@.no_duplicates(),
                to_remove@.to_set() == gone,
                visits0 == old(self)@.visits,
                walks0 == old(self)@.walks,
                unused0 == old(self)@.unused,
                gone == walks_starting_at(visits0, node),
                self.visits@.len() == visits0.len(),
                self.walks@.len() == walks0.len(),
                self@.visits == visits_without(visits0, walks0, to_remove@.take(k as int).to_set()),
                self@.walks == walks_cleared(walks0, to_remove@.take(k as int).to_set()),
                self@.unused == unused0 + to_remove@.take(k as int),
                forall|j: int| 0 <= j < k ==> #[trigger] to_remove@[j] < walks0.len(),
            decreases to_remove@.len() - k,
        {
            let walk_id = to_remove[k];
            let ghost done = to_remove@.take(k as int).to_set();
            let ghost visits_k = self@.visits;
            proof {
                assert(to_remove@.take(k + 1) =~= to_remove@.take(k as int).push(walk_id));
                assert forall|w: WalkId| #[trigger] to_remove@.take(k + 1).to_set().contains(w)
                    <==> done.insert(walk_id).contains(w) by {
                    lemma_push_contains(to_remove@.take(k as int), walk_id, w);
                }
                assert(to_remove@.take(k + 1).to_set() =~= done.insert(walk_id));
                assert(!done.contains(walk_id)) by {
                    if done.contains(walk_id) {
                        let j = choose|j: int| 0 <= j < k && #[trigger] to_remove@.take(k as int)[j] == walk_id;
                        assert(to_remove@[j] == to_remove@[k as int]);
                    }
                }
            }
            if walk_id < self.walks.len() {
                let ghost nodes = walks0[walk_id as int].nodes;
                assert(self@.walks[walk_id as int] == walks0[walk_id as int]);
                let len = self.walks[walk_id].nodes.len();
                let mut t: usize = 0;
                while t < len
                    invariant
                        0 <= t <= len,
                        walk_id < self.walks@.len(),
                        len == nodes.len(),
                        self.walks@[walk_id as int].nodes@ == nodes,
                        self.visits@.len() == visits0.len(),
                        self@.walks == walks_cleared(walks0, done),
                        self@.unused == unused0 + to_remove@.take(k as int),
                        self@.visits == Seq::new(
                            visits0.len(),
                            |n: int|
                                if nodes.take(t as int).contains(n as NodeId) {
                                    visits_k[n].remove(walk_id)
                                } else {
                                    visits_k[n]
                                },
                        ),
                    decreases len - t,
                {
                    let n = self.walks[walk_id].nodes[t];
                    let ghost before = self@.visits;
                    if n < self.visits.len() {
                        self.visits[n].remove(&walk_id);
                        proof {
                            assert(self@.visits =~= before.update(n as int, before[n as int].remove(walk_id)));
                        }
                    }
                    proof {
                        assert(nodes.take(t + 1) =~= nodes.take(t as int).push(n));
                        assert forall|m: int| 0 <= m < visits0.len() implies #[trigger] self@.visits[m]
                            == (if nodes.take(t + 1).contains(m as NodeId) {
                            visits_k[m].remove(walk_id)
                        } else {
                            visits_k[m]
                        }) by {
                            lemma_push_contains(nodes.take(t as int), n, m as NodeId);
                            if m == n as int {
                                assert(visits_k[m].remove(walk_id).remove(walk_id) =~= visits_k[m].remove(
                                    walk_id,
                                ));
                            }
                        }
                        assert(self@.visits =~= Seq::new(
                            visits0.len(),
                            |m: int|
                                if nodes.take(t + 1).contains(m as NodeId) {
                                    visits_k[m].remove(walk_id)
                                } else {
                                    visits_k[m]
                                },
                        ));
                    }
                    t = t + 1;
                }
                proof {
                    assert(nodes.take(len as int) =~= nodes);
                    assert forall|m: int| 0 <= m < visits0.len() implies #[trigger] self@.visits[m]
                        == visits_without(visits0, walks0, done.insert(walk_id))[m] by {
                        let before_set = gone_visitors(walks0, done, m as NodeId);
                        let after_set = gone_visitors(walks0, done.insert(walk_id), m as NodeId);
                        if nodes.contains(m as NodeId) {
                            assert(after_set =~= before_set.insert(walk_id));
                            assert(visits0[m].remove_keys(before_set.insert(walk_id)) =~= visits0[m].remove_keys(
                                before_set,
                            ).remove(walk_id));
                        } else {
                            assert(after_set =~= before_set);
                        }
                    }
                    assert(self@.visits =~= visits_without(visits0, walks0, done.insert(walk_id)));
                }
            }
            let ghost unused_before = self@.unused;
            self.unused_walks.push_back(walk_id);
            proof {
                assert(self@.unused =~= unused_before.push(walk_id));
                assert(self@.unused =~= unused0 + to_remove@.take(k + 1));
            }
            if walk_id >= self.walks.len() {
                proof {
                    assert(to_remove@.contains(to_remove@[k as int]));
                    assert(gone.contains(walk_id));
                    assert(walks_starting_at(old(self)@.visits, node).contains(walk_id));
                }
                return Err(
                    MeritRankError::InternalFatalError(
                        Some(internal_fatal::WALK_STORAGE_DROP_WALKS_GET_MUT),
                    ),
                );
            }
            let ghost walks_before = self@.walks;
            self.walks[walk_id].clear();
            proof {
                assert(self@.walks =~= walks_before.update(
                    walk_id as int,
                    cleared_walk(walks0[walk_id as int]),
                ));
                assert(self@.walks =~= walks_cleared(walks0, done.insert(walk_id)));
            }
            k = k + 1;
        }
        proof {
            assert(to_remove@.take(to_remove@.len() as int) =~= to_remove@);
            assert(forall|w: WalkId| #[trigger] gone.contains(w) ==> w < walks0.len()) by {
                assert forall|w: WalkId| #[trigger] gone.contains(w) implies w < walks0.len() by {
                    assert(to_remove@.to_set().contains(w));
                    let j = choose|j: int| 0 <= j < to_remove@.len() && to_remove@[j] == w;
                    assert(to_remove@[j] < walks0.len());
                }
            }
        }
        Ok(())
    }

    /// Cuts walk `walk_id` at `cut_pos` (the first position of the part to be
    /// recomputed) and removes from the visit index the visits that only the cut-off
    /// part made. Fails for an unknown walk.
    pub fn split_and_remove_from_bookkeeping(&mut self, walk_id: &WalkId, cut_pos: usize) -> (result:
        Result<(), MeritRankError>)
        requires
            *walk_id < old(self)@.walks.len() ==> cut_pos <= old(self)@.walks[*walk_id as int].nodes.len(),
        ensures
            *walk_id >= old(self)@.walks.len() ==> result == Err::<(), MeritRankError>(
                MeritRankError::InternalFatalError(Some(internal_fatal::WALK_STORAGE_SPLIT_GET_MUT)),
            ) && final(self)@ == old(self)@,
            *walk_id < old(self)@.walks.len() ==> {
                let walk = old(self)@.walks[*walk_id as int];
                &&& result is Ok
                &&& final(self)@.walks == old(self)@.walks.update(
                    *walk_id as int,
                    kept_walk(walk, cut_pos as int),
                )
                &&& final(self)@.visits == split_visits(
                    old(self)@.visits,
                    *walk_id,
                    walk.nodes.subrange(0, cut_pos as int),
                    walk.nodes.subrange(cut_pos as int, walk.nodes.len() as int),
                )
                &&& final(self)@.unused == old(self)@.unused
            },
    {
        let w = *walk_id;
        if w >= self.walks.len() {
            return Err(
                MeritRankError::InternalFatalError(Some(internal_fatal::WALK_STORAGE_SPLIT_GET_MUT)),
            );
        }
        let ghost walk0 = self@.walks[w as int];
        let ghost visits0 = self@.visits;
        let segment = self.walks[w].split_from(cut_pos);
        proof {
            assert(self@.walks =~= old(self)@.walks.update(w as int, kept_walk(walk0, cut_pos as int)));
        }
        let ghost kept = walk0.nodes.subrange(0, cut_pos as int);
        let ghost cut = walk0.nodes.subrange(cut_pos as int, walk0.nodes.len() as int);
        let mut j: usize = 0;
        while j < segment.nodes.len()
            invariant
                0 <= j <= segment.nodes@.len(),
                segment.nodes@ == cut,
                w < self.walks@.len(),
                self.walks@[w as int].nodes@ == kept,
                self@.walks == old(self)@.walks.update(w as int, kept_walk(walk0, cut_pos as int)),
                self@.unused == old(self)@.unused,
                self@.visits == split_visits(visits0, w, kept, cut.subrange(0, j as int)),
            decreases segment.nodes@.len() - j,
        {
            let node = segment.nodes[j];
            let ghost before = self@.visits;
            proof {
                assert(cut.subrange(0, j + 1) =~= cut.subrange(0, j as int).push(node));
            }
            let in_kept = self.walks[w].contains(&node);
            if !in_kept && node < self.visits.len() {
                if self.visits[node].contains_key(&w) {
                    self.visits[node].remove(&w);
                    proof {
                        assert(self@.visits =~= before.update(
                            node as int,
                            before[node as int].remove(w),
                        ));
                    }
                } else {
                    proof {
                        assert(before[node as int].remove(w) =~= before[node as int]);
                        assert(self@.visits =~= before.update(
                            node as int,
                            before[node as int].remove(w),
                        ));
                    }
                }
            }
            proof {
                let after = if !in_kept && node < before.len() {
                    before.update(node as int, before[node as int].remove(w))
                } else {
                    before
                };
                assert(self@.visits == after);
                let c0 = cut.subrange(0, j as int);
                let c1 = cut.subrange(0, j + 1);
                assert forall|n: int| 0 <= n < visits0.len() implies #[trigger] after[n]
                    == split_visits(visits0, w, kept, c1)[n] by {
                    lemma_push_contains(c0, node, n as NodeId);
                    if n == node as int {
                        assert(visits0[n].remove(w).remove(w) =~= visits0[n].remove(w));
                    }
                }
                assert(self@.visits =~= split_visits(visits0, w, kept, c1));
            }
            j = j + 1;
        }
        proof {
            assert(cut.subrange(0, cut.len() as int) =~= cut);
        }
        Ok(())
    }

    /// Records in the visit index the visits of walk `walk_id` from position
    /// `start_pos` on; a visit already recorded for the walk at a node is kept. Does
    /// nothing for an unknown walk.
    pub fn update_walk_bookkeeping(&mut self, walk_id: WalkId, start_pos: usize)
        requires
            walk_id < old(self)@.walks.len() ==> forall|i: int|
                start_pos <= i < old(self)@.walks[walk_id as int].nodes.len() ==> #[trigger] old(
                    self,
                )@.walks[walk_id as int].nodes[i] < usize::MAX,
        ensures
            final(self)@.walks == old(self)@.walks,
            final(self)@.unused == old(self)@.unused,
            walk_id >= old(self)@.walks.len() ==> final(self)@.visits == old(self)@.visits,
            walk_id < old(self)@.walks.len() ==> final(self)@.visits == record_visits(
                old(self)@.visits,
                walk_id,
                old(self)@.walks[walk_id as int].nodes,
                start_pos as int,
                old(self)@.walks[walk_id as int].nodes.len() as int,
            ),
    {
        if walk_id >= self.walks.len() {
            return;
        }
        let ghost nodes = self@.walks[walk_id as int].nodes;
        let ghost start_visits = self@.visits;
        let len = self.walks[walk_id].nodes.len();
        if start_pos >= len {
            proof {
                assert(record_visits(start_visits, walk_id, nodes, start_pos as int, len as int)
                    == start_visits);
            }
            return;
        }
        let mut pos = start_pos;
        while pos < len
            invariant
                start_pos <= pos <= len,
                len == nodes.len(),
                walk_id < self.walks@.len(),
                self@.walks == old(self)@.walks,
                self@.unused == old(self)@.unused,
                nodes == self@.walks[walk_id as int].nodes,
                forall|i: int| start_pos <= i < nodes.len() ==> #[trigger] nodes[i] < usize::MAX,
                self@.visits == record_visits(start_visits, walk_id, nodes, start_pos as int, pos as int),
            decreases len - pos,
        {
            let node = self.walks[walk_id].nodes[pos];
            let ghost before = self@.visits;
            assert(node == nodes[pos as int]);
            while self.visits.len() < node + 1
                invariant
                    node < usize::MAX,
                    self.visits@.len() <= node + 1 || self.visits@.len() == before.len(),
                    before.len() <= self.visits@.len(),
                    self@.visits == before + Seq::new(
                        (self.visits@.len() - before.len()) as nat,
                        |i: int| Map::<WalkId, usize>::empty(),
                    ),
                    self@.walks == old(self)@.walks,
                    self@.unused == old(self)@.unused,
                decreases node + 1 - self.visits@.len(),
            {
                let ghost prev = self@.visits;
                let fresh: HashMap<WalkId, usize> = HashMap::new();
                assert(fresh@ == Map::<WalkId, usize>::empty());
                self.visits.push(fresh);
                proof {
                    assert(self@.visits =~= prev.push(Map::<WalkId, usize>::empty()));
                    assert(self@.visits =~= before + Seq::new(
                        (self.visits@.len() - before.len()) as nat,
                        |i: int| Map::<WalkId, usize>::empty(),
                    ));
                }
            }
            let ghost grown = self@.visits;
            proof {
                if before.len() <= node {
                    assert(grown =~= before + Seq::new(
                        (node + 1 - before.len()) as nat,
                        |i: int| Map::<WalkId, usize>::empty(),
                    ));
                } else {
                    assert(grown =~= before);
                }
            }
            if !self.visits[node].contains_key(&walk_id) {
                self.visits[node].insert(walk_id, pos);
                proof {
                    assert(self@.visits =~= grown.update(
                        node as int,
                        grown[node as int].insert(walk_id, pos),
                    ));
                }
            }
            pos = pos + 1;
        }
    }

    /// Creates an empty storage.
    pub fn new() -> (storage: Self)
        ensures
            storage@.visits == Seq::<Map<WalkId, usize>>::empty(),
            storage@.walks == Seq::<WalkView>::empty(),
            storage@.unused == Seq::<WalkId>::empty(),
    {
        let storage = WalkStorage { visits: Vec::new(), walks: Vec::new(), unused_walks: VecDeque::new() };
        proof {
            assert(storage@.visits =~= Seq::<Map<WalkId, usize>>::empty());
            assert(storage@.walks =~= Seq::<WalkView>::empty());
        }
        storage
    }

    /// The walk with id `uid`, if there is one.
    pub fn get_walk(&self, uid: WalkId) -> (walk: Option<&RandomWalk>)
        ensures
            uid < self@.walks.len() ==> (walk matches Some(w) && w@ == self@.walks[uid as int]),
            uid >= self@.walks.len() ==> walk is None,
    {
        if uid < self.walks.len() {
            Some(&self.walks[uid])
        } else {
            None
        }
    }

    /// Mutable access to the walk with id `uid`, if there is one. The visit index is
    /// not updated: see [`WalkStorage::update_walk_bookkeeping`].
    pub fn get_walk_mut(&mut self, uid: WalkId) -> (walk: Option<&mut RandomWalk>)
        ensures
            uid < old(self)@.walks.len() ==> walk is Some && (*walk->0)@ == old(self)@.walks[uid as int]
                && final(self)@.walks =~= old(self)@.walks.update(uid as int, (*final(walk->0))@)
                && final(self)@.visits == old(self)@.visits && final(self)@.unused == old(self)@.unused,
            uid >= old(self)@.walks.len() ==> walk is None && final(self)@ == old(self)@,
    {
        if uid < self.walks.len() {
            Some(&mut self.walks[uid])
        } else {
            None
        }
    }

    /// The visit index: for each node, the walks that visit it with the position.
    pub fn get_walks(&self) -> (visits: &Vec<HashMap<WalkId, usize>>)
        ensures
            visits@.map_values(|m: HashMap<WalkId, usize>| m@) == self@.visits,
    {
        &self.visits
    }

    /// The walks that visit `node_id`, with the position of the visit; `None` when
    /// the index has no entry for the node.
    pub fn get_visits_through_node(&self, node_id: NodeId) -> (visits: Option<
        &HashMap<WalkId, usize>,
    >)
        ensures
            node_id < self@.visits.len() ==> (visits matches Some(m) && m@ == self@.visits[node_id as int]),
            node_id >= self@.visits.len() ==> visits is None,
    {
        if node_id < self.visits.len() {
            Some(&self.visits[node_id])
        } else {
            None
        }
    }

    /// Hands out a walk id: the oldest dropped one if there is any, else the id of a
    /// new empty walk.
    pub fn get_next_free_walkid(&mut self) -> (id: WalkId)
        ensures
            old(self)@.unused.len() > 0 ==> id == old(self)@.unused[0] && final(self)@ == (
            StorageView { unused: old(self)@.unused.drop_first(), ..old(self)@ }),
            old(self)@.unused.len() == 0 ==> id == old(self)@.walks.len() && final(self)@ == (
            StorageView { walks: old(self)@.walks.push(empty_walk()), ..old(self)@ }),
            old(self)@.unused.len() == 0 ==> old(self)@.walks.len() < usize::MAX,
    {
        match self.unused_walks.pop_front() {
            Some(id) => {
                proof {
                    assert(self@.unused =~= old(self)@.unused.drop_first());
                    assert(self@.visits == old(self)@.visits);
                }
                id
            },
            None => {
                let id = self.walks.len();
                self.walks.push(RandomWalk::new());
                proof {
                    assert(self.walks@.len() == self.walks.len());
                    assert(self@.walks =~= old(self)@.walks.push(empty_walk()));
                    assert(self@.visits == old(self)@.visits);
                }
                id
            },
        }
    }
}

} // verus!
