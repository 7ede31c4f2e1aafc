//! The state engine: it holds the messages that a participant has admitted,
//! and admits more.

use crate::bytes32::{HashVal, PublicKey};
use crate::crypto::verify;
use crate::model::{
    lemma_empty_inv, lemma_inv_sorted, lemma_with_max_tick, lemma_with_proposal, lemma_with_solicit,
    lemma_with_vote, total_weight, CoreView, InsertError,
};
use crate::msg::{Message, Proposal, Solicit, Vote};
use crate::ordered_map::{put, OrderedMap};
use crate::schedule::{sum_weights, LeaderSchedule};
use std::sync::Arc;
use vstd::prelude::*;

verus! {

/// The messages that one participant has admitted, with the rules of the
/// instance: its nonce, the vote weights and the leader schedule.
pub struct Core<L: LeaderSchedule> {
    pub(crate) valid_proposals: OrderedMap<Proposal>,
    pub(crate) vote_solicits: OrderedMap<Solicit>,
    pub(crate) votes: OrderedMap<Vote>,
    pub(crate) tick_source: Vec<(u64, PublicKey)>,
    pub(crate) nonce: u128,
    pub(crate) tick_to_leader: Arc<L>,
    pub(crate) vote_map: OrderedMap<u64>,
    pub(crate) total_votes: u128,
    pub(crate) max_tick: u64,
}

impl<L: LeaderSchedule> View for Core<L> {
    type V = CoreView;

    open(crate) spec fn view(&self) -> CoreView {
        CoreView {
            proposals: self.valid_proposals@,
            solicits: self.vote_solicits@,
            votes: self.votes@,
            seen: self.tick_source@.to_set(),
            nonce: self.nonce,
            weights: self.vote_map@,
            max_tick: self.max_tick,
        }
    }
}

impl<L: LeaderSchedule> Core<L> {
    /// The state is one that admission can reach, and the schedule answers
    /// for every tick.
    pub open(crate) spec fn wf(&self) -> bool {
        &&& self@.inv()
        &&& self.valid_proposals.wf()
        &&& self.vote_solicits.wf()
        &&& self.votes.wf()
        &&& self.vote_map.wf()
        &&& self.total_votes == total_weight(self.vote_map@)
        &&& forall|tick: u64| self.tick_to_leader.defined(tick)
    }

    /// The leader schedule of the instance.
    pub open(crate) spec fn schedule(&self) -> L {
        *self.tick_to_leader
    }

    /// `who` is an answer that the schedule may give for `tick`.
    pub open spec fn may_lead(&self, tick: u64, who: Option<PublicKey>) -> bool {
        self.schedule().may_lead(tick, who)
    }

    /// A well-formed engine holds a state that satisfies the invariant.
    pub proof fn sound(&self)
        requires
            self.wf(),
        ensures
            self@.inv(),
    {
    }

    /// Makes an empty state for the instance `nonce`, with a schedule that
    /// answers for every tick.
    pub fn with_schedule(nonce: u128, player_votes: Vec<(PublicKey, u64)>, tick_to_leader: L) -> (core:
        Self)
        requires
            forall|tick: u64| tick_to_leader.defined(tick),
        ensures
            core.wf(),
            core@ == (CoreView {
                proposals: Seq::empty(),
                solicits: Seq::empty(),
                votes: Seq::empty(),
                seen: Set::empty(),
                nonce,
                weights: weights_from(player_votes@),
                max_tick: 1,
            }),
            core.schedule() == tick_to_leader,
    {
        let vote_map = weight_table(&player_votes);
        let total_votes = sum_weights(&vote_map);
        let core = Core {
            valid_proposals: OrderedMap::new(),
            vote_solicits: OrderedMap::new(),
            votes: OrderedMap::new(),
            tick_source: Vec::new(),
            nonce,
            tick_to_leader: Arc::new(tick_to_leader),
            vote_map,
            total_votes,
            max_tick: 1,
        };
        assert(core.tick_source@.to_set() =~= Set::empty());
        proof {
            lemma_empty_inv(core@);
        }
        assert(core@.proposals =~= Seq::empty());
        assert(core@.solicits =~= Seq::empty());
        assert(core@.votes =~= Seq::empty());
        core
    }

    /// A copy of the whole state, which shares the leader schedule.
    pub fn snapshot(&self) -> (copy: Self)
        ensures
            copy@ == self@,
            copy.schedule() == self.schedule(),
            copy.wf() == self.wf(),
    {
        let mut tick_source: Vec<(u64, PublicKey)> = Vec::new();
        let mut i: usize = 0;
        while i < self.tick_source.len()
            invariant
                i <= self.tick_source@.len(),
                tick_source@ == self.tick_source@.take(i as int),
            decreases self.tick_source@.len() - i,
        {
            tick_source.push(self.tick_source[i]);
            assert(tick_source@ =~= self.tick_source@.take(i + 1));
            i += 1;
        }
        assert(tick_source@ =~= self.tick_source@);
        Core {
            valid_proposals: self.valid_proposals.replicate(),
            vote_solicits: self.vote_solicits.replicate(),
            votes: self.votes.replicate(),
            tick_source,
            nonce: self.nonce,
            tick_to_leader: self.tick_to_leader.clone(),
            vote_map: self.vote_map.replicate(),
            total_votes: self.total_votes,
            max_tick: self.max_tick,
        }
    }

    /// The instance that this state belongs to.
    pub fn nonce(&self) -> (nonce: u128)
        ensures
            nonce == self@.nonce,
    {
        self.nonce
    }

    /// The sum of all vote weights.
    pub fn total_votes(&self) -> (total: u128)
        requires
            self.wf(),
        ensures
            total == total_weight(self@.weights),
    {
        self.total_votes
    }

    /// The admitted proposals, by canonical hash.
    pub fn proposals(&self) -> (table: &OrderedMap<Proposal>)
        ensures
            table@ == self@.proposals,
    {
        &self.valid_proposals
    }

    /// The admitted solicits, by canonical hash.
    pub fn solicits(&self) -> (table: &OrderedMap<Solicit>)
        ensures
            table@ == self@.solicits,
    {
        &self.vote_solicits
    }

    /// The admitted votes, by canonical hash.
    pub fn votes(&self) -> (table: &OrderedMap<Vote>)
        ensures
            table@ == self@.votes,
    {
        &self.votes
    }

    /// The vote weight of each participant.
    pub fn weights(&self) -> (table: &OrderedMap<u64>)
        ensures
            table@ == self@.weights,
    {
        &self.vote_map
    }

    /// Sets the highest tick that a proposal or solicit may carry.
    pub fn set_max_tick(&mut self, tick: u64)
        requires
            old(self).wf(),
        ensures
            final(self).wf(),
            final(self)@ == (CoreView { max_tick: tick, ..old(self)@ }),
            final(self).schedule() == old(self).schedule(),
    {
        proof {
            lemma_with_max_tick(self@, tick);
        }
        self.max_tick = tick;
    }

    /// The highest tick that a proposal or solicit may carry.
    pub fn max_tick(&self) -> (tick: u64)
        ensures
            tick == self@.max_tick,
    {
        self.max_tick
    }

    /// Whether `source` has already sent a proposal or solicit for `tick`.
    fn seen_before(&self, tick: u64, source: &PublicKey) -> (b: bool)
        ensures
            b == self@.seen.contains((tick, *source)),
    {
        let mut i: usize = 0;
        while i < self.tick_source.len()
            invariant
                i <= self.tick_source@.len(),
                forall|j: int| 0 <= j < i ==> self.tick_source@[j] != (tick, *source),
            decreases self.tick_source@.len() - i,
        {
            if self.tick_source[i].0 == tick && self.tick_source[i].1 == *source {
                assert(self.tick_source@.contains((tick, *source)));
                return true;
            }
            i += 1;
        }
        false
    }

    /// Whether `h` names an admitted proposal or solicit.
    pub(crate) fn is_known(&self, h: &HashVal) -> (b: bool)
        requires
            self.wf(),
        ensures
            b == self@.is_node(*h),
    {
        self.vote_solicits.contains_key(h) || self.valid_proposals.contains_key(h)
    }

    /// Admits a proposal, or says why not.
    pub fn insert_proposal(&mut self, prop: Proposal) -> (r: Result<(), InsertError>)
        requires
            old(self).wf(),
        ensures
            final(self).wf(),
            final(self)@ == old(self)@.offer_proposal(prop@),
            r is Ok <==> old(self)@.proposal_verdict(prop@) is None,
            r is Err ==> old(self)@.proposal_verdict(prop@) == Some(r->Err_0),
            final(self).schedule() == old(self).schedule(),
    {
        if prop.nonce != self.nonce {
            return Err(InsertError::BadNonce);
        }
        let h = prop.chash();
        if !verify(&prop.source, &h, prop.signature.as_slice()) {
            return Err(InsertError::BadSignature);
        }
        if prop.tick > self.max_tick {
            return Err(InsertError::TickBeyondHorizon);
        }
        if self.seen_before(prop.tick, &prop.source) || self.is_known(&h) {
            return Err(InsertError::Equivocation);
        }
        proof {
            lemma_with_proposal(self@, prop@);
            lemma_inv_sorted(self@.with_proposal(prop@));
        }
        let ghost before = self.tick_source@;
        self.tick_source.push((prop.tick, prop.source));
        assert(self.tick_source@.to_set() =~= before.to_set().insert((prop.tick, prop.source))) by {
            assert forall|x: (u64, PublicKey)| self.tick_source@.contains(x) <==> (before.contains(x)
                || x == (prop.tick, prop.source)) by {
                if before.contains(x) {
                    let j = choose|j: int| 0 <= j < before.len() && before[j] == x;
                    assert(self.tick_source@[j] == x);
                }
                if x == (prop.tick, prop.source) {
                    assert(self.tick_source@[before.len() as int] == x);
                }
            }
        }
        self.valid_proposals.insert(h, prop);
        Ok(())
    }

    /// Admits a solicit, or says why not.
    pub fn insert_solicit(&mut self, solicit: Solicit) -> (r: Result<(), InsertError>)
        requires
            old(self).wf(),
        ensures
            final(self).wf(),
            final(self)@ == old(self)@.offer_solicit(solicit@),
            r is Ok <==> old(self)@.solicit_verdict(solicit@) is None,
            r is Err ==> old(self)@.solicit_verdict(solicit@) == Some(r->Err_0),
            final(self).schedule() == old(self).schedule(),
    {
        if solicit.nonce != self.nonce {
            return Err(InsertError::BadNonce);
        }
        let h = solicit.chash();
        if !verify(&solicit.source, &h, solicit.signature.as_slice()) {
            return Err(InsertError::BadSignature);
        }
        let parent_tick: u64 = match self.vote_solicits.get(&solicit.previous) {
            Some(s) => s.tick,
            None => match self.valid_proposals.get(&solicit.previous) {
                Some(p) => p.tick,
                None => {
                    return Err(InsertError::DanglingParent);
                },
            },
        };
        if solicit.tick <= parent_tick {
            return Err(InsertError::NonMonotonicTick);
        }
        if solicit.tick > self.max_tick {
            return Err(InsertError::TickBeyondHorizon);
        }
        if self.seen_before(solicit.tick, &solicit.source) || self.is_known(&h) {
            return Err(InsertError::Equivocation);
        }
        proof {
            lemma_with_solicit(self@, solicit@);
            lemma_inv_sorted(self@.with_solicit(solicit@));
        }
        let ghost before = self.tick_source@;
        self.tick_source.push((solicit.tick, solicit.source));
        assert(self.tick_source@.to_set() =~= before.to_set().insert(
            (solicit.tick, solicit.source),
        )) by {
            assert forall|x: (u64, PublicKey)| self.tick_source@.contains(x) <==> (before.contains(x)
                || x == (solicit.tick, solicit.source)) by {
                if before.contains(x) {
                    let j = choose|j: int| 0 <= j < before.len() && before[j] == x;
                    assert(self.tick_source@[j] == x);
                }
                if x == (solicit.tick, solicit.source) {
                    assert(self.tick_source@[before.len() as int] == x);
                }
            }
        }
        self.vote_solicits.insert(h, solicit);
        Ok(())
    }

    /// Admits a vote, or says why not.
    pub fn insert_vote(&mut self, vote: Vote) -> (r: Result<(), InsertError>)
        requires
            old(self).wf(),
        ensures
            final(self).wf(),
            final(self)@ == old(self)@.offer_vote(vote@),
            r is Ok <==> old(self)@.vote_verdict(vote@) is None,
            r is Err ==> old(self)@.vote_verdict(vote@) == Some(r->Err_0),
            final(self).schedule() == old(self).schedule(),
    {
        if vote.nonce != self.nonce {
            return Err(InsertError::BadNonce);
        }
        let h = vote.chash();
        if !verify(&vote.source, &h, vote.signature.as_slice()) {
            return Err(InsertError::BadSignature);
        }
        if !self.is_known(&vote.voting_for) {
            return Err(InsertError::DanglingTarget);
        }
        proof {
            lemma_with_vote(self@, vote@);
        }
        self.votes.insert(h, vote);
        Ok(())
    }
}

impl<F: Fn(u64) -> PublicKey> Core<F> {
    /// Makes an empty state for the instance `nonce`, with the leader of each
    /// tick given by a function that accepts every tick.
    pub fn new(nonce: u128, player_votes: Vec<(PublicKey, u64)>, tick_to_leader: F) -> (core: Self)
        requires
            forall|tick: u64| call_requires(tick_to_leader, (tick,)),
        ensures
            core.wf(),
            core@ == (CoreView {
                proposals: Seq::empty(),
                solicits: Seq::empty(),
                votes: Seq::empty(),
                seen: Set::empty(),
                nonce,
                weights: weights_from(player_votes@),
                max_tick: 1,
            }),
            core.schedule() == tick_to_leader,
            forall|tick: u64, who: Option<PublicKey>|
                #[trigger] core.may_lead(tick, who) <==> who is Some && call_ensures(
                    tick_to_leader,
                    (tick,),
                    who->0,
                ),
    {
        Core::with_schedule(nonce, player_votes, tick_to_leader)
    }
}

impl<L: LeaderSchedule> Clone for Core<L> {
    fn clone(&self) -> (copy: Self)
        ensures
            copy@ == self@,
            copy.schedule() == self.schedule(),
            copy.wf() == self.wf(),
    {
        self.snapshot()
    }
}

/// The weight table that a list of `(participant, weight)` pairs gives: a
/// later pair replaces an earlier one for the same participant.
pub open spec fn weights_from(pairs: Seq<(PublicKey, u64)>) -> Seq<(PublicKey, u64)>
    decreases pairs.len(),
{
    if pairs.len() == 0 {
        Seq::empty()
    } else {
        put(weights_from(pairs.drop_last()), pairs.last().0, pairs.last().1)
    }
}

/// Builds the weight table of a list of `(participant, weight)` pairs.
pub fn weight_table(pairs: &Vec<(PublicKey, u64)>) -> (table: OrderedMap<u64>)
    ensures
        table.wf(),
        table@ == weights_from(pairs@),
{
    let mut table: OrderedMap<u64> = OrderedMap::new();
    let mut i: usize = 0;
    while i < pairs.len()
        invariant
            i <= pairs@.len(),
            table.wf(),
            table@ == weights_from(pairs@.take(i as int)),
        decreases pairs@.len() - i,
    {
        proof {
            let next = pairs@.take(i + 1);
            assert(next.drop_last() =~= pairs@.take(i as int));
        }
        table.insert(pairs[i].0, pairs[i].1);
        i += 1;
    }
    assert(pairs@.take(i as int) =~= pairs@);
    table
}

} // verus!
