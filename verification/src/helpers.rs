//! Helpers for the lists of scored nodes that the service hands out.
use vstd::prelude::*;

use crate::node_registry::NodeInfo;
use crate::random_walk::NodeId;

verus! {

/// `slice::swap`: the elements at `i` and `j` trade places; with `i == j` nothing
/// changes.
#[verifier::external_body]
fn vec_swap<T>(v: &mut Vec<T>, i: usize, j: usize)
    requires
        i < old(v).len(),
        j < old(v).len(),
    ensures
        final(v)@ == old(v)@.update(i as int, old(v)@[j as int]).update(j as int, old(v)@[i as int]),
{
    v.swap(i, j);
}

/// Whether an entry of a list of scored nodes is a node that `ego` owns.
pub open spec fn owned_by<S, C>(item: (NodeInfo, S, C), ego: NodeId) -> bool {
    item.0.owner == Some(ego)
}

/// The entries of `items` that `ego` owns, in their order.
pub open spec fn owned_items<S, C>(items: Seq<(NodeInfo, S, C)>, ego: NodeId) -> Seq<
    (NodeInfo, S, C),
> {
    items.filter(|x: (NodeInfo, S, C)| owned_by(x, ego))
}

/// The entries of `items` that `ego` does not own, in the order that moving the
/// owned entries forward leaves them: an entry not owned joins at the back, and each
/// owned entry takes the place of the first entry not owned so far, which thereby
/// goes to the back.
pub open spec fn others_after<S, C>(items: Seq<(NodeInfo, S, C)>, ego: NodeId) -> Seq<
    (NodeInfo, S, C),
>
    decreases items.len(),
{
    if items.len() == 0 {
        items
    } else {
        let before = others_after(items.drop_last(), ego);
        if !owned_by(items.last(), ego) {
            before.push(items.last())
        } else if before.len() == 0 {
            before
        } else {
            before.drop_first().push(before[0])
        }
    }
}

/// Trading the places of two elements keeps the elements.
proof fn lemma_swap_keeps_multiset<T>(s: Seq<T>, i: int, j: int)
    requires
        0 <= i < s.len(),
        0 <= j < s.len(),
    ensures
        s.update(i, s[j]).update(j, s[i]).to_multiset() == s.to_multiset(),
{
    broadcast use vstd::seq_lib::to_multiset_update, vstd::multiset::group_multiset_axioms;

    let s1 = s.update(i, s[j]);
    assert(s1.to_multiset() == s.to_multiset().insert(s[j]).remove(s[i]));
    assert(s1.update(j, s[i]).to_multiset() == s1.to_multiset().insert(s[i]).remove(s1[j]));
    if i == j {
        assert(s1 =~= s);
        assert(s1.update(j, s[i]) =~= s);
    } else {
        assert(s1[j] == s[j]);
        let m = s.to_multiset();
        assert(s.contains(s[i]));
        assert(m.count(s[i]) > 0) by {
            vstd::seq_lib::to_multiset_contains(s, s[i]);
        }
        let r = m.insert(s[j]).remove(s[i]).insert(s[i]).remove(s[j]);
        assert forall|v: T| #[trigger] r.count(v) == m.count(v) by {}
        assert(r =~= m);
    }
}

/// Moves the entries whose node `ego_info` owns to the front of `items`, each by
/// trading places with the first entry that is not owned; the owned entries keep
/// their order, and every entry stays in the list.
pub fn prioritize_ego_owned_items<S, C>(items: &mut Vec<(NodeInfo, S, C)>, ego_info: &NodeInfo)
    ensures
        final(items)@ == owned_items(old(items)@, ego_info.id) + others_after(
            old(items)@,
            ego_info.id,
        ),
        final(items)@.len() == old(items)@.len(),
        final(items)@.to_multiset() == old(items)@.to_multiset(),
        final(items)@.take(owned_items(old(items)@, ego_info.id).len() as int) == owned_items(
            old(items)@,
            ego_info.id,
        ),
        forall|i: int|
            owned_items(old(items)@, ego_info.id).len() <= i < final(items)@.len() ==> !owned_by(
                #[trigger] final(items)@[i],
                ego_info.id,
            ),
{
    let ghost start = items@;
    let ghost ego = ego_info.id;
    let mut insert_index: usize = 0;
    let mut i: usize = 0;
    while i < items.len()
        invariant
            insert_index <= i <= items@.len(),
            items@.len() == start.len(),
            items@.to_multiset() == start.to_multiset(),
            ego == ego_info.id,
            items@.take(insert_index as int) == owned_items(start.take(i as int), ego),
            forall|j: int| insert_index <= j < i ==> !owned_by(#[trigger] items@[j], ego),
            items@.subrange(insert_index as int, i as int) == others_after(start.take(i as int), ego),
            forall|j: int| i <= j < items@.len() ==> items@[j] == start[j],
        decreases items@.len() - i,
    {
        let owned = match items[i].0.owner {
            Some(owner) => owner == ego_info.id,
            None => false,
        };
        let ghost before = items@;
        proof {
            reveal(Seq::filter);
            assert(start.take(i + 1).drop_last() =~= start.take(i as int));
            assert(start.take(i + 1).last() == start[i as int]);
            assert(owned <==> owned_by(start[i as int], ego));
        }
        if owned {
            vec_swap(items, i, insert_index);
            proof {
                let b = before.subrange(insert_index as int, i as int);
                if insert_index < i {
                    assert(items@.subrange(insert_index + 1, i + 1) =~= b.drop_first().push(b[0]));
                } else {
                    assert(items@.subrange(insert_index + 1, i + 1) =~= b);
                }
                lemma_swap_keeps_multiset(before, i as int, insert_index as int);
                assert(items@.take(insert_index + 1) =~= before.take(insert_index as int).push(
                    start[i as int],
                ));
                assert forall|j: int| insert_index + 1 <= j < i + 1 implies !owned_by(
                    #[trigger] items@[j],
                    ego,
                ) by {
                    if j == i && insert_index < i {
                        assert(items@[j] == before[insert_index as int]);
                    } else {
                        assert(items@[j] == before[j]);
                    }
                }
            }
            insert_index = insert_index + 1;
        } else {
            proof {
                assert(items@.subrange(insert_index as int, i + 1) =~= before.subrange(
                    insert_index as int,
                    i as int,
                ).push(start[i as int]));
            }
        }
        i = i + 1;
    }
    proof {
        assert(start.take(start.len() as int) =~= start);
        assert(items@ =~= items@.take(insert_index as int) + items@.subrange(
            insert_index as int,
            items@.len() as int,
        ));
    }
}

} // verus!
