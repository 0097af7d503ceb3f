//! Polls: which variants belong to which poll, and the users' votes for them.
//!
//! The variants of a poll are kept in an `indexmap::IndexSet`, in the order in which
//! they were added, as far as removals (which move the last variant into the freed
//! place) leave it. A vote carries a weight that the store never reads; the results
//! of a poll are computed elsewhere from the votes.
use indexmap::IndexSet;
use std::collections::HashMap;
use vstd::prelude::*;
use vstd::std_specs::hash::spec_hash_map_iter;
use vstd::std_specs::iter::IteratorSpec;

use crate::random_walk::NodeId;
use crate::counter::{lemma_seq_push_to_set, lemma_seq_to_set_contains};
use crate::walk_storage::lemma_push_contains;

verus! {

/// A poll, by the id of its node.
pub type PollId = NodeId;

/// A poll variant, by the id of its node.
pub type PollVariantId = NodeId;

/// A user, by the id of its node.
pub type UserId = NodeId;

#[verifier::external_type_specification]
#[verifier::external_body]
#[verifier::reject_recursive_types(T)]
#[verifier::reject_recursive_types(S)]
pub struct ExIndexSet<T, S>(IndexSet<T, S>);

/// The values of a set of variants, in the set's order.
pub uninterp spec fn variant_items(set: IndexSet<PollVariantId>) -> Seq<PollVariantId>;

/// `IndexSet::new`: an empty set.
#[verifier::external_body]
fn new_variant_set() -> (set: IndexSet<PollVariantId>)
    ensures
        variant_items(set) == Seq::<PollVariantId>::empty(),
{
    IndexSet::new()
}

/// `IndexSet::insert`: a value that the set does not hold is appended at the end
/// and `true` is returned; a value that it holds leaves the set as it was, and
/// `false` is returned. A set never holds a value twice.
#[verifier::external_body]
fn variant_set_insert(set: &mut IndexSet<PollVariantId>, value: PollVariantId) -> (added: bool)
    ensures
        added == !variant_items(*old(set)).contains(value),
        variant_items(*final(set)) == if added {
            variant_items(*old(set)).push(value)
        } else {
            variant_items(*old(set))
        },
        variant_items(*final(set)).no_duplicates(),
{
    set.insert(value)
}

/// `IndexSet::swap_remove`: a value that the set holds is removed by moving the
/// last value into its place, and `true` is returned; otherwise the set stays as it
/// was, and `false` is returned. A set never holds a value twice.
#[verifier::external_body]
fn variant_set_swap_remove(set: &mut IndexSet<PollVariantId>, value: PollVariantId) -> (removed:
    bool)
    ensures
        removed == variant_items(*old(set)).contains(value),
        removed ==> exists|i: int|
            0 <= i < variant_items(*old(set)).len() && variant_items(*old(set))[i] == value
                && variant_items(*final(set)) == variant_items(*old(set)).update(
                i,
                variant_items(*old(set)).last(),
            ).drop_last(),
        !removed ==> variant_items(*final(set)) == variant_items(*old(set)),
        variant_items(*final(set)).no_duplicates(),
{
    set.swap_remove(&value)
}

/// `IndexSet::iter`: the values of the set, in its order.
#[verifier::external_body]
fn variant_set_values(set: &IndexSet<PollVariantId>) -> (values: Vec<PollVariantId>)
    ensures
        values@ == variant_items(*set),
{
    set.iter().copied().collect()
}

/// The error for a variant that belongs to a poll already.
pub const OPTION_EXISTS: &'static str = "Option already exists in a poll";

/// The error for an unknown variant.
pub const OPTION_MISSING: &'static str = "Option does not exist";

/// The error for a user without a vote in the poll.
pub const VOTE_MISSING: &'static str = "Vote not found";

/// The error for a poll without votes.
pub const NO_VOTES: &'static str = "No votes for this poll";

/// The error for an unknown poll.
pub const POLL_MISSING: &'static str = "Poll does not exist";

/// A user's vote: the variant chosen, with a weight.
#[derive(Debug, Clone)]
pub struct Vote<W> {
    pub option: PollVariantId,
    pub weight: W,
}

/// The polls with their variants, the poll of each variant, and per poll the vote
/// of each user who voted.
pub struct PollStore<W> {
    polls: HashMap<PollId, IndexSet<PollVariantId>>,
    options: HashMap<PollVariantId, PollId>,
    votes: HashMap<PollId, HashMap<UserId, Vote<W>>>,
}

impl<W> Default for PollStore<W> {
    /// A store without polls and votes.
    fn default() -> (store: Self)
        ensures
            store@.polls == Map::<PollId, Seq<PollVariantId>>::empty(),
            store@.options == Map::<PollVariantId, PollId>::empty(),
            store@.votes == Map::<PollId, Map<UserId, Vote<W>>>::empty(),
    {
        PollStore::new()
    }
}

/// The contents of a poll store.
pub struct PollsView<W> {
    /// The variants of each poll, in the poll's order.
    pub polls: Map<PollId, Seq<PollVariantId>>,
    /// The poll of each variant.
    pub options: Map<PollVariantId, PollId>,
    /// Per poll, the vote of each user who voted.
    pub votes: Map<PollId, Map<UserId, Vote<W>>>,
}

impl<W> View for PollStore<W> {
    type V = PollsView<W>;

    closed spec fn view(&self) -> PollsView<W> {
        PollsView {
            polls: self.polls@.map_values(|s: IndexSet<PollVariantId>| variant_items(s)),
            options: self.options@,
            votes: self.votes@.map_values(|m: HashMap<UserId, Vote<W>>| m@),
        }
    }
}

/// The variants of `poll`; none for an unknown poll.
pub open spec fn variants_of(polls: Map<PollId, Seq<PollVariantId>>, poll: PollId) -> Seq<
    PollVariantId,
> {
    if polls.contains_key(poll) {
        polls[poll]
    } else {
        Seq::empty()
    }
}

/// The votes for `poll`; none for a poll without votes.
pub open spec fn votes_of<W>(votes: Map<PollId, Map<UserId, Vote<W>>>, poll: PollId) -> Map<
    UserId,
    Vote<W>,
> {
    if votes.contains_key(poll) {
        votes[poll]
    } else {
        Map::empty()
    }
}

/// The votes of `votes` that are not for `option`.
pub open spec fn votes_without<W>(votes: Map<UserId, Vote<W>>, option: PollVariantId) -> Map<
    UserId,
    Vote<W>,
> {
    votes.restrict(votes.dom().filter(|u: UserId| votes[u].option != option))
}

/// The users of the vote entries `pairs` whose vote is for `option`, in order.
pub open spec fn users_for_option<W>(pairs: Seq<(&UserId, &Vote<W>)>, option: PollVariantId) -> Seq<
    UserId,
>
    decreases pairs.len(),
{
    if pairs.len() == 0 {
        Seq::empty()
    } else {
        let prev = users_for_option(pairs.drop_last(), option);
        if (*pairs.last().1).option == option {
            prev.push(*pairs.last().0)
        } else {
            prev
        }
    }
}

/// A user is among those for `option` exactly when one of the entries is its vote
/// for `option`.
proof fn lemma_users_for_option<W>(pairs: Seq<(&UserId, &Vote<W>)>, option: PollVariantId, u: UserId)
    ensures
        users_for_option(pairs, option).contains(u) <==> exists|j: int|
            0 <= j < pairs.len() && *(#[trigger] pairs[j]).0 == u && (*pairs[j].1).option == option,
    decreases pairs.len(),
{
    if pairs.len() > 0 {
        let init = pairs.drop_last();
        lemma_users_for_option(init, option, u);
        let prev = users_for_option(init, option);
        let last = pairs.len() - 1;
        assert(pairs[last] == pairs.last());
        if (*pairs.last().1).option == option {
            lemma_push_contains(prev, *pairs.last().0, u);
        }
        if exists|j: int| 0 <= j < pairs.len() && *(#[trigger] pairs[j]).0 == u && (*pairs[j].1).option == option {
            let j = choose|j: int| 0 <= j < pairs.len() && *(#[trigger] pairs[j]).0 == u && (*pairs[j].1).option == option;
            if j < last {
                assert(init[j] == pairs[j]);
            }
        }
        if exists|j: int| 0 <= j < init.len() && *(#[trigger] init[j]).0 == u && (*init[j].1).option == option {
            let j = choose|j: int| 0 <= j < init.len() && *(#[trigger] init[j]).0 == u && (*init[j].1).option == option;
            assert(pairs[j] == init[j]);
        }
    }
}

/// Whether the variants and their polls agree: each variant belongs to exactly the
/// poll that holds it, and a poll holds each variant once.
pub open spec fn polls_agree<W>(v: PollsView<W>) -> bool {
    &&& forall|o: PollVariantId| #[trigger]
        v.options.contains_key(o) ==> v.polls.contains_key(v.options[o]) && v.polls[v.options[o]].contains(o)
    &&& forall|p: PollId, o: PollVariantId|
        v.polls.contains_key(p) && #[trigger] v.polls[p].contains(o) ==> v.options.contains_key(o)
            && v.options[o] == p
    &&& forall|p: PollId| #[trigger] v.polls.contains_key(p) ==> v.polls[p].no_duplicates()
}

impl<W> PollStore<W> {
    #[verifier::type_invariant]
    closed spec fn agree(self) -> bool {
        polls_agree(self@)
    }

    /// A store without polls and votes.
    pub fn new() -> (store: Self)
        ensures
            store@.polls == Map::<PollId, Seq<PollVariantId>>::empty(),
            store@.options == Map::<PollVariantId, PollId>::empty(),
            store@.votes == Map::<PollId, Map<UserId, Vote<W>>>::empty(),
    {
        let store = PollStore { polls: HashMap::new(), options: HashMap::new(), votes: HashMap::new() };
        proof {
            assert(store@.polls =~= Map::<PollId, Seq<PollVariantId>>::empty());
            assert(store@.votes =~= Map::<PollId, Map<UserId, Vote<W>>>::empty());
        }
        store
    }

    /// Adds variant `option` to poll `poll`, at the end of its variants; fails when
    /// the variant belongs to a poll already.
    pub fn add_poll_option(&mut self, option: PollVariantId, poll: PollId) -> (result: Result<
        (),
        &'static str,
    >)
        ensures
            polls_agree(final(self)@),
            ({
                let v = old(self)@;
                let n = final(self)@;
                &&& v.options.contains_key(option) ==> result == Err::<(), &'static str>(OPTION_EXISTS)
                    && n == v
                &&& !v.options.contains_key(option) ==> result is Ok && n.polls == v.polls.insert(
                    poll,
                    variants_of(v.polls, poll).push(option),
                ) && n.options == v.options.insert(option, poll) && n.votes == v.votes
            }),
    {
        proof {
            use_type_invariant(&*self);
        }
        if self.options.contains_key(&option) {
            return Err(OPTION_EXISTS);
        }
        let ghost v = self@;
        let mut taken = PollStore::new();
        std::mem::swap(&mut taken, self);
        let PollStore { mut polls, mut options, votes } = taken;
        let mut set = match polls.remove(&poll) {
            Some(s) => s,
            None => new_variant_set(),
        };
        proof {
            assert(variant_items(set) == variants_of(v.polls, poll));
            assert(!variant_items(set).contains(option));
        }
        variant_set_insert(&mut set, option);
        polls.insert(poll, set);
        options.insert(option, poll);
        let ghost n = PollsView {
            polls: polls@.map_values(|s: IndexSet<PollVariantId>| variant_items(s)),
            options: options@,
            votes: votes@.map_values(|m: HashMap<UserId, Vote<W>>| m@),
        };
        proof {
            assert(n.polls =~= v.polls.insert(poll, variants_of(v.polls, poll).push(option)));
            assert forall|o: PollVariantId| #[trigger] n.options.contains_key(o) implies n.polls.contains_key(
                n.options[o],
            ) && n.polls[n.options[o]].contains(o) by {
                if o != option {
                    assert(v.options.contains_key(o));
                    lemma_push_contains(variants_of(v.polls, poll), option, o);
                } else {
                    lemma_push_contains(variants_of(v.polls, poll), option, o);
                }
            }
            assert forall|p: PollId, o: PollVariantId|
                n.polls.contains_key(p) && #[trigger] n.polls[p].contains(o) implies n.options.contains_key(
                o,
            ) && n.options[o] == p by {
                if p == poll {
                    lemma_push_contains(variants_of(v.polls, poll), option, o);
                }
            }
        }
        *self = PollStore { polls, options, votes };
        Ok(())
    }

    /// Records `user`'s vote for variant `option`, with `weight`, in place of the
    /// user's earlier vote in that poll; fails for an unknown variant.
    pub fn add_user_vote(&mut self, user: UserId, option: PollVariantId, weight: W) -> (result:
        Result<(), &'static str>)
        ensures
            polls_agree(final(self)@),
            ({
                let v = old(self)@;
                let n = final(self)@;
                &&& !v.options.contains_key(option) ==> result == Err::<(), &'static str>(
                    OPTION_MISSING,
                ) && n == v
                &&& v.options.contains_key(option) ==> {
                    let poll = v.options[option];
                    &&& result is Ok
                    &&& n.polls == v.polls
                    &&& n.options == v.options
                    &&& n.votes == v.votes.insert(
                        poll,
                        votes_of(v.votes, poll).insert(user, Vote { option, weight }),
                    )
                }
            }),
    {
        proof {
            use_type_invariant(&*self);
        }
        let poll = match self.options.get(&option) {
            Some(p) => *p,
            None => {
                return Err(OPTION_MISSING);
            },
        };
        let ghost v = self@;
        let mut taken = PollStore::new();
        std::mem::swap(&mut taken, self);
        let PollStore { polls, options, mut votes } = taken;
        let mut poll_votes = match votes.remove(&poll) {
            Some(m) => m,
            None => HashMap::new(),
        };
        poll_votes.insert(user, Vote { option, weight });
        votes.insert(poll, poll_votes);
        proof {
            assert(votes@.map_values(|m: HashMap<UserId, Vote<W>>| m@) =~= v.votes.insert(
                poll,
                votes_of(v.votes, poll).insert(user, Vote { option, weight }),
            ));
            assert(polls@.map_values(|s: IndexSet<PollVariantId>| variant_items(s)) == v.polls);
            assert(options@ == v.options);
        }
        *self = PollStore { polls, options, votes };
        Ok(())
    }

    /// Removes `user`'s vote from poll `poll`; fails when the poll has no votes or
    /// none of the user.
    pub fn remove_user_vote(&mut self, user: UserId, poll: PollId) -> (result: Result<
        (),
        &'static str,
    >)
        ensures
            polls_agree(final(self)@),
            ({
                let v = old(self)@;
                let n = final(self)@;
                &&& !v.votes.contains_key(poll) ==> result == Err::<(), &'static str>(NO_VOTES) && n
                    == v
                &&& v.votes.contains_key(poll) && !v.votes[poll].contains_key(user) ==> result
                    == Err::<(), &'static str>(VOTE_MISSING) && n == v
                &&& v.votes.contains_key(poll) && v.votes[poll].contains_key(user) ==> result is Ok
                    && n.polls == v.polls && n.options == v.options && n.votes == v.votes.insert(
                    poll,
                    v.votes[poll].remove(user),
                )
            }),
    {
        proof {
            use_type_invariant(&*self);
        }
        let ghost v = self@;
        let mut taken = PollStore::new();
        std::mem::swap(&mut taken, self);
        let PollStore { polls, options, mut votes } = taken;
        let result = match votes.remove(&poll) {
            Some(mut poll_votes) => {
                let removed = poll_votes.remove(&user);
                votes.insert(poll, poll_votes);
                match removed {
                    Some(_) => Ok(()),
                    None => Err(VOTE_MISSING),
                }
            },
            None => Err(NO_VOTES),
        };
        proof {
            let nv = votes@.map_values(|m: HashMap<UserId, Vote<W>>| m@);
            if v.votes.contains_key(poll) {
                assert(nv =~= v.votes.insert(poll, v.votes[poll].remove(user)));
                if !v.votes[poll].contains_key(user) {
                    assert(v.votes[poll].remove(user) =~= v.votes[poll]);
                    assert(nv =~= v.votes);
                }
            } else {
                assert(nv =~= v.votes);
            }
            assert(polls@.map_values(|s: IndexSet<PollVariantId>| variant_items(s)) == v.polls);
            assert(options@ == v.options);
        }
        *self = PollStore { polls, options, votes };
        result
    }

    /// The poll of variant `option`, if it belongs to one.
    pub fn get_option_poll(&self, option: PollVariantId) -> (poll: Option<&PollId>)
        ensures
            self@.options.contains_key(option) ==> poll == Some(&self@.options[option]),
            !self@.options.contains_key(option) ==> poll is None,
    {
        self.options.get(&option)
    }

    /// The variants of poll `poll`, in its order, if it is known.
    pub fn get_poll_options(&self, poll: PollId) -> (options: Option<Vec<PollVariantId>>)
        ensures
            self@.polls.contains_key(poll) ==> (options matches Some(o) && o@ == self@.polls[poll]),
            !self@.polls.contains_key(poll) ==> options is None,
    {
        match self.polls.get(&poll) {
            Some(set) => Some(variant_set_values(set)),
            None => None,
        }
    }

    /// The votes for poll `poll`, if it has any.
    pub fn get_poll_votes(&self, poll: PollId) -> (votes: Option<&HashMap<UserId, Vote<W>>>)
        ensures
            self@.votes.contains_key(poll) ==> (votes matches Some(m) && m@ == self@.votes[poll]),
            !self@.votes.contains_key(poll) ==> votes is None,
    {
        self.votes.get(&poll)
    }

    /// Removes variant `option` from its poll, by moving the poll's last variant
    /// into its place, together with the votes for it; fails for an unknown variant.
    pub fn remove_option_from_poll(&mut self, option: PollVariantId) -> (result: Result<
        (),
        &'static str,
    >)
        ensures
            polls_agree(final(self)@),
            ({
                let v = old(self)@;
                let n = final(self)@;
                &&& !v.options.contains_key(option) ==> result == Err::<(), &'static str>(
                    OPTION_MISSING,
                ) && n == v
                &&& v.options.contains_key(option) ==> {
                    let poll = v.options[option];
                    let items = v.polls[poll];
                    &&& result is Ok
                    &&& n.options == v.options.remove(option)
                    &&& exists|i: int|
                        0 <= i < items.len() && items[i] == option && n.polls == v.polls.insert(
                            poll,
                            items.update(i, items.last()).drop_last(),
                        )
                    &&& n.votes == if v.votes.contains_key(poll) {
                        v.votes.insert(poll, votes_without(v.votes[poll], option))
                    } else {
                        v.votes
                    }
                }
            }),
    {
        proof {
            use_type_invariant(&*self);
        }
        let poll = match self.options.get(&option) {
            Some(p) => *p,
            None => {
                return Err(OPTION_MISSING);
            },
        };
        let ghost v = self@;
        proof {
            assert(v.options.contains_key(option));
            assert(v.options[option] == poll);
            assert(v.polls[poll].contains(option));
        }
        let mut taken = PollStore::new();
        std::mem::swap(&mut taken, self);
        let PollStore { mut polls, mut options, mut votes } = taken;
        options.remove(&option);
        let mut set = match polls.remove(&poll) {
            Some(set) => set,
            None => new_variant_set(),
        };
        proof {
            assert(v.polls.contains_key(poll));
            assert(variant_items(set) == v.polls[poll]);
        }
        let ghost items = variant_items(set);
        variant_set_swap_remove(&mut set, option);
        let ghost rest = variant_items(set);
        polls.insert(poll, set);
        match votes.remove(&poll) {
            Some(mut poll_votes) => {
                let ghost before = poll_votes@;
                let ghost pairs = spec_hash_map_iter(&poll_votes).remaining();
                let mut chosen: Vec<UserId> = Vec::new();
                for kv in it: poll_votes.iter()
                    invariant
                        it.seq() == pairs,
                        before == poll_votes@,
                        pairs.len() == before.dom().len(),
                        forall|i: int|
                            #![trigger before.contains_key(*pairs[i].0)]
                            0 <= i < pairs.len() ==> before.contains_key(*pairs[i].0) && before[*pairs[i].0]
                                == *pairs[i].1,
                        forall|u: UserId| #[trigger] before.contains_key(u) ==> pairs.contains((&u, &before[u])),
                        forall|u: UserId| #[trigger]
                            chosen@.contains(u) ==> before.contains_key(u) && before[u].option == option,
                        forall|i: int|
                            0 <= i < it.index() && (*(#[trigger] pairs[i]).1).option == option
                                ==> chosen@.contains(*pairs[i].0),
                {
                    let ghost i = it.index();
                    let ghost earlier = chosen@;
                    proof {
                        assert(kv == pairs[i]);
                        assert(before.contains_key(*pairs[i].0));
                    }
                    if kv.1.option == option {
                        chosen.push(*kv.0);
                    }
                    proof {
                        assert(chosen@ == earlier || chosen@ == earlier.push(*kv.0));
                        assert forall|u: UserId| #[trigger] chosen@.contains(u) implies before.contains_key(u)
                            && before[u].option == option by {
                            let j = choose|j: int| 0 <= j < chosen@.len() && chosen@[j] == u;
                            if j < earlier.len() {
                                assert(earlier[j] == u);
                                assert(earlier.contains(u));
                            } else {
                                assert(u == *kv.0 && kv.1.option == option);
                            }
                        }
                        assert forall|j: int|
                            0 <= j < i + 1 && (*(#[trigger] pairs[j]).1).option == option implies chosen@.contains(
                            *pairs[j].0,
                        ) by {
                            if j < i {
                                assert(earlier.contains(*pairs[j].0));
                                let w = choose|w: int| 0 <= w < earlier.len() && earlier[w] == *pairs[j].0;
                                assert(chosen@[w] == *pairs[j].0);
                            } else {
                                assert(chosen@[chosen@.len() - 1] == *pairs[j].0);
                            }
                        }
                    }
                }
                let mut k: usize = 0;
                while k < chosen.len()
                    invariant
                        k <= chosen@.len(),
                        poll_votes@ == before.remove_keys(chosen@.take(k as int).to_set()),
                    decreases chosen@.len() - k,
                {
                    let u = chosen[k];
                    poll_votes.remove(&u);
                    proof {
                        assert(chosen@.take(k + 1) =~= chosen@.take(k as int).push(u));
                        lemma_seq_push_to_set(chosen@.take(k as int), u);
                        assert(poll_votes@ =~= before.remove_keys(chosen@.take(k + 1).to_set()));
                    }
                    k = k + 1;
                }
                proof {
                    assert(chosen@.take(chosen@.len() as int) =~= chosen@);
                    assert(poll_votes@ =~= votes_without(before, option)) by {
                        assert forall|u: UserId| #[trigger] chosen@.to_set().contains(u) <==> (
                        before.contains_key(u) && before[u].option == option) by {
                            lemma_seq_to_set_contains(chosen@, u);
                            if before.contains_key(u) && before[u].option == option {
                                let j = choose|j: int| 0 <= j < pairs.len() && pairs[j] == (&u, &before[u]);
                                assert((*pairs[j].1).option == option);
                            }
                        }
                    }
                }
                votes.insert(poll, poll_votes);
            },
            None => {},
        }
        let ghost n = PollsView {
            polls: polls@.map_values(|s: IndexSet<PollVariantId>| variant_items(s)),
            options: options@,
            votes: votes@.map_values(|m: HashMap<UserId, Vote<W>>| m@),
        };
        proof {
            assert(items == v.polls[poll]);
            assert(items.contains(option));
            let i = choose|i: int|
                0 <= i < items.len() && items[i] == option && rest == items.update(
                    i,
                    items.last(),
                ).drop_last();
            assert(n.polls =~= v.polls.insert(poll, rest));
            if v.votes.contains_key(poll) {
                assert(n.votes =~= v.votes.insert(poll, votes_without(v.votes[poll], option)));
            } else {
                assert(n.votes =~= v.votes);
            }
            assert forall|o: PollVariantId| #[trigger] rest.contains(o) <==> (items.contains(o) && o
                != option) by {
                if rest.contains(o) {
                    let j = choose|j: int| 0 <= j < rest.len() && rest[j] == o;
                    if j == i {
                        assert(o == items.last());
                        assert(items[items.len() - 1] != option || items.len() - 1 == i);
                    } else {
                        assert(items[j] == o);
                    }
                }
                if items.contains(o) && o != option {
                    let j = choose|j: int| 0 <= j < items.len() && items[j] == o;
                    if j == items.len() - 1 {
                        assert(rest[i] == o);
                    } else {
                        assert(rest[j] == o);
                    }
                }
            }
            assert forall|o: PollVariantId| #[trigger] n.options.contains_key(o) implies n.polls.contains_key(
                n.options[o],
            ) && n.polls[n.options[o]].contains(o) by {
                assert(v.options.contains_key(o));
            }
            assert forall|p: PollId, o: PollVariantId|
                n.polls.contains_key(p) && #[trigger] n.polls[p].contains(o) implies n.options.contains_key(
                o,
            ) && n.options[o] == p by {
                if p == poll {
                    assert(items.contains(o));
                }
            }
        }
        *self = PollStore { polls, options, votes };
        Ok(())
    }

    /// Removes poll `poll` with its variants and its votes; fails for an unknown
    /// poll.
    pub fn remove_poll(&mut self, poll: PollId) -> (result: Result<(), &'static str>)
        ensures
            polls_agree(final(self)@),
            ({
                let v = old(self)@;
                let n = final(self)@;
                &&& !v.polls.contains_key(poll) ==> result == Err::<(), &'static str>(POLL_MISSING)
                    && n == v
                &&& v.polls.contains_key(poll) ==> result is Ok && n.polls == v.polls.remove(poll)
                    && n.options == v.options.remove_keys(v.polls[poll].to_set()) && n.votes
                    == v.votes.remove(poll)
            }),
    {
        proof {
            use_type_invariant(&*self);
        }
        if !self.polls.contains_key(&poll) {
            return Err(POLL_MISSING);
        }
        let ghost v = self@;
        let mut taken = PollStore::new();
        std::mem::swap(&mut taken, self);
        let PollStore { mut polls, mut options, mut votes } = taken;
        let set = match polls.remove(&poll) {
            Some(set) => set,
            None => new_variant_set(),
        };
        let values = variant_set_values(&set);
        proof {
            assert(values@ == v.polls[poll]);
        }
        let mut k: usize = 0;
        while k < values.len()
            invariant
                k <= values@.len(),
                options@ == v.options.remove_keys(values@.take(k as int).to_set()),
            decreases values@.len() - k,
        {
            let o = values[k];
            options.remove(&o);
            proof {
                assert(values@.take(k + 1) =~= values@.take(k as int).push(o));
                lemma_seq_push_to_set(values@.take(k as int), o);
                assert(options@ =~= v.options.remove_keys(values@.take(k + 1).to_set()));
            }
            k = k + 1;
        }
        votes.remove(&poll);
        let ghost n = PollsView {
            polls: polls@.map_values(|s: IndexSet<PollVariantId>| variant_items(s)),
            options: options@,
            votes: votes@.map_values(|m: HashMap<UserId, Vote<W>>| m@),
        };
        proof {
            assert(values@.take(values@.len() as int) =~= values@);
            assert(n.polls =~= v.polls.remove(poll));
            assert(n.votes =~= v.votes.remove(poll));
            assert forall|o: PollVariantId| #[trigger] n.options.contains_key(o) implies n.polls.contains_key(
                n.options[o],
            ) && n.polls[n.options[o]].contains(o) by {
                lemma_seq_to_set_contains(values@, o);
                assert(v.options.contains_key(o));
                if v.options[o] == poll {
                    assert(v.polls[poll].contains(o));
                }
            }
            assert forall|p: PollId, o: PollVariantId|
                n.polls.contains_key(p) && #[trigger] n.polls[p].contains(o) implies n.options.contains_key(
                o,
            ) && n.options[o] == p by {
                assert(v.polls[p].contains(o));
                lemma_seq_to_set_contains(values@, o);
                if values@.contains(o) {
                    assert(v.options[o] == poll);
                }
            }
        }
        *self = PollStore { polls, options, votes };
        Ok(())
    }
}

} // verus!
