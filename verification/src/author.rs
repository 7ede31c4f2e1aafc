//! What a participant writes itself: its proposal or solicit when it leads a
//! tick, and its votes.

use crate::bytes32::{HashVal, PublicKey, SecretKey};
use crate::chain::holds;
use crate::crypto::public_of;
use crate::engine::Core;
use crate::model::{extending, refusal, InsertError};
use crate::msg::{Proposal, Solicit, Vote};
use crate::ordered_map::lemma_index_unique;
use crate::schedule::LeaderSchedule;
use vstd::prelude::*;

verus! {

impl<L: LeaderSchedule> Core<L> {
    /// What this participant is to vote for.
    fn my_targets(&self) -> (targets: Vec<HashVal>)
        requires
            self.wf(),
        ensures
            targets@ == self@.vote_targets(),
            forall|k: int| 0 <= k < targets@.len() ==> self@.is_node(#[trigger] targets@[k]),
    {
        let tips = self.get_lnc_tips();
        let mut targets: Vec<HashVal> = Vec::new();
        if tips.len() == 0 {
            assert(!self@.has_tip()) by {
                if self@.has_tip() {
                    let h = choose|h: HashVal| self@.is_tip(h);
                    assert(tips@.contains(h));
                }
            }
            let mut i: usize = 0;
            while i < self.valid_proposals.len()
                invariant
                    self.wf(),
                    i <= self@.proposals.len(),
                    targets@.len() == i,
                    forall|j: int| 0 <= j < i ==> #[trigger] targets@[j] == self@.proposals[j].0,
                decreases self@.proposals.len() - i,
            {
                targets.push(self.valid_proposals.key_at(i));
                i += 1;
            }
            assert(targets@ =~= self@.vote_targets());
            assert forall|k: int| 0 <= k < targets@.len() implies self@.is_node(
                #[trigger] targets@[k],
            ) by {
                assert(self@.proposals[k].0 == targets@[k]);
            }
        } else {
            assert(self@.has_tip()) by {
                assert(tips@.contains(tips@[0]));
                assert(self@.is_tip(tips@[0]));
            }
            let mut i: usize = 0;
            while i < self.vote_solicits.len()
                invariant
                    self.wf(),
                    i <= self@.solicits.len(),
                    forall|h: HashVal| tips@.contains(h) <==> self@.is_tip(h),
                    targets@ == extending(self@, self@.solicits.take(i as int)),
                    forall|k: int|
                        0 <= k < targets@.len() ==> self@.is_node(#[trigger] targets@[k]),
                decreases self@.solicits.len() - i,
            {
                proof {
                    let next = self@.solicits.take(i + 1);
                    assert(next.drop_last() =~= self@.solicits.take(i as int));
                    assert(next.last() == self@.solicits[i as int]);
                }
                let previous = self.vote_solicits.value_at(i).previous;
                if holds(&tips, &previous) {
                    targets.push(self.vote_solicits.key_at(i));
                    proof {
                        lemma_index_unique(self@.solicits, self@.solicits[i as int].0, i as int);
                    }
                }
                i += 1;
            }
            assert(self@.solicits.take(i as int) =~= self@.solicits);
        }
        targets
    }

    /// Signs and admits this participant's votes: for every proposal while
    /// nothing is notarized, and otherwise for every solicit that extends a
    /// tip. It stops at the first vote that is refused, which only a secret
    /// key that does not match its public half can cause.
    pub fn insert_my_votes(&mut self, my_sk: SecretKey) -> (r: Result<(), InsertError>)
        requires
            old(self).wf(),
        ensures
            final(self).wf(),
            final(self)@ == old(self)@.cast_votes(old(self)@.vote_targets(), my_sk).0,
            r is Ok <==> old(self)@.cast_votes(old(self)@.vote_targets(), my_sk).1 is None,
            r is Err ==> r->Err_0 == InsertError::BadSignature && old(self)@.cast_votes(
                old(self)@.vote_targets(),
                my_sk,
            ).1 == Some(InsertError::BadSignature),
            final(self).schedule() == old(self).schedule(),
    {
        let targets = self.my_targets();
        let mut i: usize = 0;
        assert(targets@.skip(0) =~= targets@);
        while i < targets.len()
            invariant
                self.wf(),
                i <= targets@.len(),
                self@.nonce == old(self)@.nonce,
                targets@ == old(self)@.vote_targets(),
                forall|k: int| 0 <= k < targets@.len() ==> self@.is_node(#[trigger] targets@[k]),
                old(self)@.cast_votes(targets@, my_sk) == self@.cast_votes(
                    targets@.skip(i as int),
                    my_sk,
                ),
                self.schedule() == old(self).schedule(),
            decreases targets@.len() - i,
        {
            let ghost rest = targets@.skip(i as int);
            let ghost before = self@;
            proof {
                assert(rest[0] == targets@[i as int]);
                assert(rest.drop_first() =~= targets@.skip(i + 1));
                assert(self@.is_node(targets@[i as int]));
            }
            let vote = Vote::new(self.nonce, targets[i], my_sk);
            assert(before.cast_votes(rest, my_sk) == (match before.vote_verdict(vote@) {
                Some(e) => (before, Some(e)),
                None => before.with_vote(vote@).cast_votes(rest.drop_first(), my_sk),
            }));
            match self.insert_vote(vote) {
                Ok(()) => {
                    proof {
                        assert forall|k: int| 0 <= k < targets@.len() implies self@.is_node(
                            #[trigger] targets@[k],
                        ) by {
                            assert(before.is_node(targets@[k]));
                        }
                    }
                },
                Err(e) => {
                    return Err(e);
                },
            }
            i += 1;
        }
        Ok(())
    }

    /// Writes what the leader of `tick` writes: a solicit that extends the
    /// least tip where there is one, and otherwise a proposal with the body
    /// that `gen_prop` gives. A refused solicit is dropped in silence; a
    /// refused proposal is reported.
    pub fn lead<F: FnOnce() -> Vec<u8>>(&mut self, tick: u64, my_sk: SecretKey, gen_prop: F) -> (r:
        Result<(), InsertError>)
        requires
            old(self).wf(),
            call_requires(gen_prop, ()),
        ensures
            final(self).wf(),
            exists|body: Vec<u8>|
                #![trigger body@]
                (old(self)@.has_tip() || call_ensures(gen_prop, (), body)) && old(self)@.led(
                    tick,
                    my_sk,
                    body@,
                    final(self)@,
                    refusal(r),
                ),
            final(self).schedule() == old(self).schedule(),
    {
        let tips = self.get_lnc_tips();
        if tips.len() > 0 {
            let tip = tips[0];
            proof {
                assert(tips@.contains(tip));
                assert(self@.is_tip(tip));
                assert forall|g: HashVal| #[trigger] self@.is_tip(g) implies !g.lt(tip) by {
                    assert(tips@.contains(g));
                    let k = choose|k: int| 0 <= k < tips@.len() && tips@[k] == g;
                    if k > 0 {
                        assert(tips@[0].lt(tips@[k]));
                    }
                }
                assert(self@.is_least_tip(tip));
                let other = self@.least_tip();
                assert(self@.is_least_tip(other));
                assert(!tip.lt(other) && !other.lt(tip));
            }
            let solicit = Solicit::new(self.nonce, tick, tip, my_sk);
            let _ = self.insert_solicit(solicit);
            proof {
                let unused: Vec<u8> = arbitrary();
                assert(old(self)@.led(tick, my_sk, unused@, self@, None));
            }
            Ok(())
        } else {
            assert(!self@.has_tip()) by {
                if self@.has_tip() {
                    let h = choose|h: HashVal| self@.is_tip(h);
                    assert(tips@.contains(h));
                }
            }
            let body = gen_prop();
            let ghost witness = body;
            let proposal = Proposal::new(self.nonce, tick, body, my_sk);
            let r = self.insert_proposal(proposal);
            assert(call_ensures(gen_prop, (), witness) && old(self)@.led(
                tick,
                my_sk,
                witness@,
                self@,
                refusal(r),
            ));
            r
        }
    }

    /// Writes this participant's proposal or solicit for `tick` if the
    /// schedule names it the leader of `tick`, and does nothing if not.
    pub fn insert_my_prop_or_solicit<F: FnOnce() -> Vec<u8>>(
        &mut self,
        tick: u64,
        my_sk: SecretKey,
        gen_prop: F,
    ) -> (r: Result<(), InsertError>)
        requires
            old(self).wf(),
            call_requires(gen_prop, ()),
        ensures
            final(self).wf(),
            exists|who: Option<PublicKey>, body: Vec<u8>|
                #![trigger old(self).may_lead(tick, who), body@]
                {
                    let leads = who == Some(public_of(my_sk));
                    &&& old(self).may_lead(tick, who)
                    &&& !leads || old(self)@.has_tip() || call_ensures(gen_prop, (), body)
                    &&& old(self)@.took_turn(leads, tick, my_sk, body@, final(self)@, refusal(r))
                },
            final(self).schedule() == old(self).schedule(),
    {
        let who = self.tick_to_leader.leader(tick);
        let me = my_sk.to_public();
        let mine = match who {
            Some(key) => key == me,
            None => false,
        };
        if !mine {
            proof {
                let unused: Vec<u8> = arbitrary();
                assert(self.may_lead(tick, who) && self@.took_turn(
                    false,
                    tick,
                    my_sk,
                    unused@,
                    self@,
                    None,
                ));
            }
            return Ok(());
        }
        let r = self.lead(tick, my_sk, gen_prop);
        proof {
            let body = choose|body: Vec<u8>|
                #![trigger body@]
                (old(self)@.has_tip() || call_ensures(gen_prop, (), body)) && old(self)@.led(
                    tick,
                    my_sk,
                    body@,
                    self@,
                    refusal(r),
                );
            assert(old(self).may_lead(tick, who) && old(self)@.took_turn(
                true,
                tick,
                my_sk,
                body@,
                self@,
                refusal(r),
            ));
        }
        r
    }
}

} // verus!
