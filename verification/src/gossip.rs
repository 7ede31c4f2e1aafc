//! Reconciliation between participants: the fingerprint summary of a state,
//! the diff that brings a peer up to date, and its application.

use crate::bytes32::HashVal;
use crate::engine::Core;
use crate::model::{
    diff_key, fingerprint, lemma_vote_target, news_votes, peer_differs, place,
    place_proposals, place_solicits, InsertError,
};
use crate::msg::{DiffMessage, DiffMessageView};
use crate::ordered_map::{
    has_key, lemma_put_all, lemma_take_has, value_of, OrderedMap, Replicate,
};
use crate::schedule::LeaderSchedule;
use vstd::prelude::*;

verus! {

/// The messages of a list as mathematical values.
pub open spec fn views(list: Seq<DiffMessage>) -> Seq<DiffMessageView> {
    list.map_values(|m: DiffMessage| m@)
}

/// The tick by which a message is ordered in a diff.
fn tick_key(m: &DiffMessage) -> (k: u64)
    ensures
        k == diff_key(m@),
{
    match m {
        DiffMessage::Proposal(p) => p.tick,
        DiffMessage::Solicit(s) => s.tick,
        DiffMessage::Vote(_) => u64::MAX,
    }
}

/// Puts `m` behind the last message of `out` whose tick is not above its own.
fn place_in(out: &mut Vec<DiffMessage>, m: DiffMessage)
    ensures
        views(final(out)@) == place(views(old(out)@), m@),
{
    let key = tick_key(&m);
    let mut p: usize = out.len();
    proof {
        let whole = views(out@);
        assert(whole.take(p as int) =~= whole);
        assert(place(whole, m@) + whole.skip(p as int) =~= place(whole, m@));
    }
    while p > 0 && tick_key(&out[p - 1]) > key
        invariant
            p <= out@.len(),
            out@ == old(out)@,
            key == diff_key(m@),
            place(views(out@), m@) == place(views(out@).take(p as int), m@) + views(out@).skip(
                p as int,
            ),
        decreases p,
    {
        proof {
            let whole = views(out@);
            let head = whole.take(p as int);
            assert(head.last() == whole[p - 1]);
            assert(head.drop_last() =~= whole.take(p - 1));
            assert(place(head, m@) == place(head.drop_last(), m@).push(head.last()));
            assert(place(whole.take(p - 1), m@).push(whole[p - 1]) + whole.skip(p as int) =~= place(
                whole.take(p - 1),
                m@,
            ) + whole.skip(p - 1));
        }
        p -= 1;
    }
    proof {
        let whole = views(out@);
        let head = whole.take(p as int);
        if p > 0 {
            assert(head.last() == whole[p - 1]);
        }
        assert(place(head, m@) =~= head.push(m@));
        assert(head.push(m@) + whole.skip(p as int) =~= whole.insert(p as int, m@));
        assert(views(out@.insert(p as int, m)) =~= whole.insert(p as int, m@));
        assert(whole.take(out@.len() as int) =~= whole);
        assert(whole.skip(out@.len() as int) =~= Seq::empty());
    }
    out.insert(p, m);
}

impl<L: LeaderSchedule> Core<L> {
    /// The fingerprint of the whole state: for each proposal and solicit, the
    /// exclusive or of the hashes of the votes for it.
    pub fn summary(&self) -> (m: OrderedMap<HashVal>)
        requires
            self.wf(),
        ensures
            m.wf(),
            self@.is_summary(m@),
    {
        let mut m: OrderedMap<HashVal> = OrderedMap::new();
        let mut i: usize = 0;
        while i < self.valid_proposals.len()
            invariant
                self.wf(),
                m.wf(),
                i <= self@.proposals.len(),
                forall|h: HashVal|
                    #[trigger] has_key(m@, h) <==> has_key(self@.proposals.take(i as int), h),
                forall|h: HashVal| #[trigger] has_key(m@, h) ==> value_of(m@, h) == HashVal::zero(),
            decreases self@.proposals.len() - i,
        {
            let h = self.valid_proposals.key_at(i);
            proof {
                lemma_take_has(self@.proposals, i as int);
                lemma_put_all(m@, h, HashVal::zero());
            }
            m.insert(h, HashVal::all_zero());
            i += 1;
        }
        assert(self@.proposals.take(i as int) =~= self@.proposals);
        let mut i: usize = 0;
        while i < self.vote_solicits.len()
            invariant
                self.wf(),
                m.wf(),
                i <= self@.solicits.len(),
                forall|h: HashVal|
                    #[trigger] has_key(m@, h) <==> has_key(self@.proposals, h) || has_key(
                        self@.solicits.take(i as int),
                        h,
                    ),
                forall|h: HashVal| #[trigger] has_key(m@, h) ==> value_of(m@, h) == HashVal::zero(),
            decreases self@.solicits.len() - i,
        {
            let h = self.vote_solicits.key_at(i);
            proof {
                lemma_take_has(self@.solicits, i as int);
                lemma_put_all(m@, h, HashVal::zero());
            }
            m.insert(h, HashVal::all_zero());
            i += 1;
        }
        assert(self@.solicits.take(i as int) =~= self@.solicits);
        let mut i: usize = 0;
        while i < self.votes.len()
            invariant
                self.wf(),
                m.wf(),
                i <= self@.votes.len(),
                forall|h: HashVal| #[trigger] has_key(m@, h) <==> self@.is_node(h),
                forall|h: HashVal|
                    #[trigger] has_key(m@, h) ==> value_of(m@, h) == fingerprint(
                        self@.votes.take(i as int),
                        h,
                    ),
            decreases self@.votes.len() - i,
        {
            let hv = self.votes.key_at(i);
            let target = self.votes.value_at(i).voting_for;
            proof {
                lemma_vote_target(self@, i as int);
                let next = self@.votes.take(i + 1);
                assert(next.drop_last() =~= self@.votes.take(i as int));
                assert(next.last() == self@.votes[i as int]);
            }
            let so_far: HashVal = match m.get(&target) {
                Some(x) => *x,
                None => HashVal::all_zero(),
            };
            let mixed = so_far.xor(&hv);
            proof {
                lemma_put_all(m@, target, mixed);
            }
            m.insert(target, mixed);
            i += 1;
        }
        assert(self@.votes.take(i as int) =~= self@.votes);
        assert forall|h: HashVal| #[trigger] self@.is_node(h) implies value_of(m@, h) == fingerprint(
            self@.votes,
            h,
        ) by {
            assert(has_key(m@, h));
        }
        m
    }

    /// What a peer whose summary is `their_summary` is to be sent, ordered so
    /// that it can be applied from front to back.
    pub fn get_diff(&self, their_summary: &OrderedMap<HashVal>) -> (out: Vec<DiffMessage>)
        requires
            self.wf(),
            their_summary.wf(),
        ensures
            views(out@) == self@.diff(their_summary@),
    {
        let our_summary = self.summary();
        let ghost theirs = their_summary@;
        let mut out: Vec<DiffMessage> = Vec::new();
        assert(views(out@) =~= Seq::empty());
        let mut i: usize = 0;
        while i < self.valid_proposals.len()
            invariant
                self.wf(),
                their_summary.wf(),
                theirs == their_summary@,
                i <= self@.proposals.len(),
                views(out@) == place_proposals(Seq::empty(), self@.proposals.take(i as int), theirs),
            decreases self@.proposals.len() - i,
        {
            proof {
                let next = self@.proposals.take(i + 1);
                assert(next.drop_last() =~= self@.proposals.take(i as int));
                assert(next.last() == self@.proposals[i as int]);
            }
            let h = self.valid_proposals.key_at(i);
            if !their_summary.contains_key(&h) {
                let copy = self.valid_proposals.value_at(i).replicate();
                place_in(&mut out, DiffMessage::Proposal(copy));
            }
            i += 1;
        }
        assert(self@.proposals.take(i as int) =~= self@.proposals);
        let ghost roots = views(out@);
        let mut i: usize = 0;
        while i < self.vote_solicits.len()
            invariant
                self.wf(),
                their_summary.wf(),
                theirs == their_summary@,
                i <= self@.solicits.len(),
                views(out@) == place_solicits(roots, self@.solicits.take(i as int), theirs),
            decreases self@.solicits.len() - i,
        {
            proof {
                let next = self@.solicits.take(i + 1);
                assert(next.drop_last() =~= self@.solicits.take(i as int));
                assert(next.last() == self@.solicits[i as int]);
            }
            let h = self.vote_solicits.key_at(i);
            if !their_summary.contains_key(&h) {
                let copy = self.vote_solicits.value_at(i).replicate();
                place_in(&mut out, DiffMessage::Solicit(copy));
            }
            i += 1;
        }
        assert(self@.solicits.take(i as int) =~= self@.solicits);
        let ghost nodes = views(out@);
        let mut i: usize = 0;
        while i < self.votes.len()
            invariant
                self.wf(),
                their_summary.wf(),
                our_summary.wf(),
                self@.is_summary(our_summary@),
                theirs == their_summary@,
                i <= self@.votes.len(),
                views(out@) == nodes + news_votes(self@.votes, i as int, theirs),
            decreases self@.votes.len() - i,
        {
            let vote = self.votes.value_at(i);
            let target = vote.voting_for;
            proof {
                lemma_vote_target(self@, i as int);
            }
            let differs = match their_summary.get(&target) {
                None => true,
                Some(theirs_for) => {
                    let ours_for: HashVal = match our_summary.get(&target) {
                        Some(x) => *x,
                        None => HashVal::all_zero(),
                    };
                    *theirs_for != ours_for
                },
            };
            assert(differs == peer_differs(self@.votes, theirs, target));
            if differs {
                let copy = vote.replicate();
                let ghost before = views(out@);
                out.push(DiffMessage::Vote(copy));
                assert(views(out@) =~= before.push(DiffMessageView::Vote(vote@)));
                assert(views(out@) =~= nodes + news_votes(self@.votes, i + 1, theirs));
            }
            i += 1;
        }
        out
    }

    /// Offers one message of a diff for admission.
    pub fn apply_one_diff(&mut self, dmsg: DiffMessage) -> (r: Result<(), InsertError>)
        requires
            old(self).wf(),
        ensures
            final(self).wf(),
            final(self)@ == old(self)@.offer(dmsg@),
            r is Ok <==> old(self)@.verdict(dmsg@) is None,
            r is Err ==> old(self)@.verdict(dmsg@) == Some(r->Err_0),
            final(self).schedule() == old(self).schedule(),
    {
        match dmsg {
            DiffMessage::Proposal(p) => self.insert_proposal(p),
            DiffMessage::Solicit(s) => self.insert_solicit(s),
            DiffMessage::Vote(v) => self.insert_vote(v),
        }
    }
}

} // verus!
