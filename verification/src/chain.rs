//! Notarization, the longest notarized chains and the decision.

use crate::bytes32::HashVal;
use crate::engine::Core;
use crate::model::{
    ascending, lemma_chain_len, lemma_decides_unique, lemma_root, tally, three_in_a_row,
    total_weight, CoreView,
};
use crate::msg::Proposal;
use crate::ordered_map::{has_key, sorted, OrderedMap};
use crate::schedule::LeaderSchedule;
use vstd::prelude::*;

verus! {

/// The keys of `s`, in order, that are notarized and stand `best` solicits
/// from their root.
spec fn picked<T>(c: CoreView, s: Seq<(HashVal, T)>, best: nat) -> Seq<HashVal>
    decreases s.len(),
{
    if s.len() == 0 {
        Seq::empty()
    } else if c.notarized(s.last().0) && c.chain_len(s.last().0) == best {
        picked(c, s.drop_last(), best).push(s.last().0)
    } else {
        picked(c, s.drop_last(), best)
    }
}

/// No notarized key of `s` stands more than `best` solicits from its root.
spec fn at_most<T>(c: CoreView, s: Seq<(HashVal, T)>, best: nat) -> bool {
    forall|j: int| 0 <= j < s.len() && c.notarized((#[trigger] s[j]).0) ==> c.chain_len(s[j].0) <= best
}

/// No key of `s` is notarized.
spec fn none_notarized<T>(c: CoreView, s: Seq<(HashVal, T)>) -> bool {
    forall|j: int| 0 <= j < s.len() ==> !c.notarized((#[trigger] s[j]).0)
}

/// What is picked from a sorted table: exactly its notarized keys at distance
/// `best`, in ascending order.
proof fn lemma_picked<T>(c: CoreView, s: Seq<(HashVal, T)>, best: nat)
    requires
        sorted(s),
    ensures
        forall|h: HashVal|
            #[trigger] picked(c, s, best).contains(h) <==> has_key(s, h) && c.notarized(h)
                && c.chain_len(h) == best,
        ascending(picked(c, s, best)),
    decreases s.len(),
{
    let r = picked(c, s, best);
    if s.len() > 0 {
        let t = s.drop_last();
        let last = s.last().0;
        let q = picked(c, t, best);
        assert(sorted(t)) by {
            assert forall|i: int, j: int| 0 <= i < j < t.len() implies (#[trigger] t[i]).0.lt(
                (#[trigger] t[j]).0,
            ) by {
                assert(s[i].0.lt(s[j].0));
            }
        }
        lemma_picked(c, t, best);
        assert forall|h: HashVal| has_key(s, h) <==> (has_key(t, h) || h == last) by {
            if has_key(t, h) {
                let i = choose|i: int| 0 <= i < t.len() && (#[trigger] t[i]).0 == h;
                assert(s[i].0 == h);
            }
            if has_key(s, h) {
                let i = choose|i: int| 0 <= i < s.len() && (#[trigger] s[i]).0 == h;
                if i < t.len() {
                    assert(t[i].0 == h);
                }
            }
            if h == last {
                assert(s[s.len() - 1].0 == h);
            }
        }
        assert forall|h: HashVal| q.contains(h) implies h.lt(last) by {
            assert(picked(c, t, best).contains(h));
            assert(has_key(t, h));
            let i = choose|i: int| 0 <= i < t.len() && (#[trigger] t[i]).0 == h;
            assert(s[i].0.lt(s[s.len() - 1].0));
        }
        assert forall|h: HashVal| #[trigger] r.contains(h) <==> has_key(s, h) && c.notarized(h)
            && c.chain_len(h) == best by {
            assert(q.contains(h) <==> has_key(t, h) && c.notarized(h) && c.chain_len(h) == best);
            if c.notarized(last) && c.chain_len(last) == best {
                assert(r == q.push(last));
                if q.contains(h) {
                    let k = choose|k: int| 0 <= k < q.len() && q[k] == h;
                    assert(r[k] == h);
                }
                if h == last {
                    assert(r[q.len() as int] == h);
                }
                if r.contains(h) {
                    let k = choose|k: int| 0 <= k < r.len() && r[k] == h;
                    if k < q.len() {
                        assert(q[k] == h);
                    }
                }
            }
        }
        if c.notarized(last) && c.chain_len(last) == best {
            assert(r == q.push(last));
            assert forall|h: HashVal| r.contains(h) <==> (q.contains(h) || h == last) by {
                if q.contains(h) {
                    let k = choose|k: int| 0 <= k < q.len() && q[k] == h;
                    assert(r[k] == h);
                }
                if h == last {
                    assert(r[q.len() as int] == h);
                }
            }
            assert forall|i: int, j: int| 0 <= i < j < r.len() implies (#[trigger] r[i]).lt(
                #[trigger] r[j],
            ) by {
                if j < q.len() {
                    assert(q[i].lt(q[j]));
                } else {
                    assert(q.contains(q[i]));
                }
            }
        }
    } else {
        assert(r =~= Seq::empty());
    }
}

/// Nothing is picked at a distance that no notarized key reaches.
proof fn lemma_picked_none<T>(c: CoreView, s: Seq<(HashVal, T)>, low: nat, best: nat)
    requires
        at_most(c, s, low),
        low < best,
    ensures
        picked(c, s, best) == Seq::<HashVal>::empty(),
    decreases s.len(),
{
    if s.len() > 0 {
        let t = s.drop_last();
        assert(at_most(c, t, low)) by {
            assert forall|j: int| 0 <= j < t.len() && c.notarized((#[trigger] t[j]).0) implies c.chain_len(
                t[j].0,
            ) <= low by {
                assert(c.notarized(s[j].0));
            }
        }
        lemma_picked_none(c, t, low, best);
        assert(c.notarized(s[s.len() - 1].0) ==> c.chain_len(s[s.len() - 1].0) <= low);
    }
}

/// Whether `h` is among `list`.
pub(crate) fn holds(list: &Vec<HashVal>, h: &HashVal) -> (found: bool)
    ensures
        found == list@.contains(*h),
{
    let mut i: usize = 0;
    while i < list.len()
        invariant
            i <= list@.len(),
            forall|j: int| 0 <= j < i ==> list@[j] != *h,
        decreases list@.len() - i,
    {
        if list[i] == *h {
            return true;
        }
        i += 1;
    }
    false
}

/// Whether some three neighbours in `ticks` descend by one each.
pub fn has_three_in_a_row(ticks: &Vec<u64>) -> (found: bool)
    ensures
        found == three_in_a_row(ticks@),
{
    if ticks.len() < 3 {
        return false;
    }
    let last: usize = ticks.len() - 2;
    let mut i: usize = 0;
    while i < last
        invariant
            last + 2 == ticks.len(),
            i <= last,
            forall|j: int|
                0 <= j < i ==> !((#[trigger] ticks@[j]) == ticks@[j + 1] + 1 && ticks@[j + 1]
                    == ticks@[j + 2] + 1),
        decreases last - i,
    {
        let a: u64 = ticks[i];
        let b: u64 = ticks[i + 1];
        let c: u64 = ticks[i + 2];
        if b < a && a - b == 1 && c < b && b - c == 1 {
            return true;
        }
        i += 1;
    }
    false
}

impl<L: LeaderSchedule> Core<L> {
    /// Whether the votes for `h` carry more than two thirds of all weight.
    pub fn is_notarized(&self, h: HashVal) -> (yes: bool)
        requires
            self.wf(),
        ensures
            yes == self@.notarized(h),
    {
        let mut sum: u128 = 0;
        let mut i: usize = 0;
        while i < self.votes.len()
            invariant
                self.wf(),
                i <= self.votes@.len(),
                sum == tally(self.votes@.take(i as int), self.vote_map@, h),
                sum <= i * 0xffff_ffff_ffff_ffff,
            decreases self.votes@.len() - i,
        {
            proof {
                let next = self.votes@.take(i + 1);
                assert(next.drop_last() =~= self.votes@.take(i as int));
                assert((i + 1) * 0xffff_ffff_ffff_ffff <= 0xffff_ffff_ffff_ffff
                    * 0xffff_ffff_ffff_ffff) by (nonlinear_arith)
                    requires
                        i + 1 <= 0xffff_ffff_ffff_ffff,
                ;
                assert((i + 1) * 0xffff_ffff_ffff_ffff == i * 0xffff_ffff_ffff_ffff
                    + 0xffff_ffff_ffff_ffff) by (nonlinear_arith);
            }
            let vote = self.votes.value_at(i);
            if vote.voting_for == h {
                let weight: u64 = match self.vote_map.get(&vote.source) {
                    Some(w) => *w,
                    None => 0,
                };
                sum = sum + weight as u128;
            }
            i += 1;
        }
        assert(self.votes@.take(i as int) =~= self.votes@);
        let third: u128 = self.total_votes / 3;
        let rest: u128 = self.total_votes % 3;
        let threshold: u128 = third * 2 + rest * 2 / 3;
        assert(threshold == 2 * total_weight(self.vote_map@) / 3);
        sum > threshold
    }

    /// The number of solicits between `h` and the proposal at its root.
    pub fn lookup_len(&self, h: HashVal) -> (len: u64)
        requires
            self.wf(),
        ensures
            len == self@.chain_len(h),
    {
        let mut cur: HashVal = h;
        let mut len: u64 = 0;
        proof {
            lemma_chain_len(self@, h);
        }
        loop
            invariant
                self.wf(),
                self@.chain_len(h) == len + self@.chain_len(cur),
                self@.chain_len(h) <= u64::MAX,
            decreases self@.node_tick(cur),
        {
            proof {
                lemma_chain_len(self@, cur);
            }
            match self.vote_solicits.get(&cur) {
                Some(solicit) => {
                    len = len + 1;
                    cur = solicit.previous;
                },
                None => {
                    return len;
                },
            }
        }
    }

    /// The ticks on the way from the node `tip` back to its root, and the
    /// hash of the root.
    fn trace(&self, tip: HashVal) -> (r: (Vec<u64>, HashVal))
        requires
            self.wf(),
            self@.is_node(tip),
        ensures
            r.0@ == self@.tick_path(tip),
            r.1 == self@.root_of(tip),
            has_key(self@.proposals, r.1),
    {
        let mut ticks: Vec<u64> = Vec::new();
        let mut cur: HashVal = tip;
        loop
            invariant
                self.wf(),
                self@.is_node(cur),
                ticks@ + self@.tick_path(cur) == self@.tick_path(tip),
                self@.root_of(cur) == self@.root_of(tip),
            decreases self@.node_tick(cur),
        {
            proof {
                lemma_chain_len(self@, cur);
                lemma_root(self@, cur);
            }
            match self.vote_solicits.get(&cur) {
                Some(solicit) => {
                    let ghost before = ticks@;
                    ticks.push(solicit.tick);
                    proof {
                        let prev = solicit.previous;
                        assert(ticks@ + self@.tick_path(prev) =~= before + self@.tick_path(cur));
                    }
                    cur = solicit.previous;
                },
                None => {
                    let ghost before = ticks@;
                    let found = self.valid_proposals.get(&cur);
                    let root = found.unwrap();
                    ticks.push(root.tick);
                    assert(ticks@ =~= before + self@.tick_path(cur));
                    return (ticks, cur);
                },
            }
        }
    }

    /// The notarized keys of `table` that lie furthest from their roots, in
    /// order, with that distance.
    fn longest_in<V: View>(&self, table: &OrderedMap<V>) -> (r: (Vec<HashVal>, u64))
        requires
            self.wf(),
            table.wf(),
        ensures
            r.0@ == picked(self@, table@, r.1 as nat),
            at_most(self@, table@, r.1 as nat),
            r.0@.len() == 0 ==> r.1 == 0 && none_notarized(self@, table@),
    {
        let mut tips: Vec<HashVal> = Vec::new();
        let mut best: u64 = 0;
        let mut i: usize = 0;
        while i < table.len()
            invariant
                self.wf(),
                i <= table@.len(),
                tips@ == picked(self@, table@.take(i as int), best as nat),
                at_most(self@, table@.take(i as int), best as nat),
                tips@.len() == 0 ==> best == 0 && none_notarized(self@, table@.take(i as int)),
            decreases table@.len() - i,
        {
            let h = table.key_at(i);
            let ghost done = table@.take(i as int);
            let ghost next = table@.take(i + 1);
            proof {
                assert(next.drop_last() =~= done);
                assert(next.last().0 == h);
                assert forall|j: int| 0 <= j < done.len() implies next[j] == done[j] by {}
            }
            if self.is_notarized(h) {
                let len = self.lookup_len(h);
                if len > best {
                    proof {
                        lemma_picked_none(self@, done, best as nat, len as nat);
                    }
                    tips = Vec::new();
                    tips.push(h);
                    best = len;
                    assert(tips@ =~= picked(self@, next, best as nat));
                } else if len == best {
                    tips.push(h);
                }
                assert(at_most(self@, next, best as nat)) by {
                    assert forall|j: int|
                        0 <= j < next.len() && self@.notarized((#[trigger] next[j]).0) implies self@.chain_len(
                        next[j].0,
                    ) <= best by {
                        if j < done.len() {
                            assert(self@.notarized(done[j].0));
                        }
                    }
                }
                assert(tips@.len() > 0);
            } else {
                assert(at_most(self@, next, best as nat)) by {
                    assert forall|j: int|
                        0 <= j < next.len() && self@.notarized((#[trigger] next[j]).0) implies self@.chain_len(
                        next[j].0,
                    ) <= best by {
                        if j < done.len() {
                            assert(self@.notarized(done[j].0));
                        }
                    }
                }
                assert(tips@.len() == 0 ==> none_notarized(self@, next)) by {
                    if tips@.len() == 0 {
                        assert forall|j: int| 0 <= j < next.len() implies !self@.notarized(
                            (#[trigger] next[j]).0,
                        ) by {
                            if j < done.len() {
                                assert(!self@.notarized(done[j].0));
                            }
                        }
                    }
                }
            }
            i += 1;
        }
        assert(table@.take(i as int) =~= table@);
        (tips, best)
    }

    /// The ends of the longest notarized chains, in ascending hash order.
    pub fn get_lnc_tips(&self) -> (tips: Vec<HashVal>)
        requires
            self.wf(),
        ensures
            forall|h: HashVal| tips@.contains(h) <==> self@.is_tip(h),
            ascending(tips@),
    {
        let (roots, low) = self.longest_in(&self.valid_proposals);
        let (links, high) = self.longest_in(&self.vote_solicits);
        proof {
            let c = self@;
            lemma_picked(c, c.proposals, low as nat);
            lemma_picked(c, c.solicits, high as nat);
            assert forall|g: HashVal| has_key(c.proposals, g) implies c.chain_len(g) == 0 by {
                lemma_chain_len(c, g);
            }
            assert forall|g: HashVal| has_key(c.solicits, g) implies c.chain_len(g) >= 1
                && !has_key(c.proposals, g) by {
                lemma_chain_len(c, g);
            }
            if roots@.len() > 0 {
                assert(roots@.contains(roots@[0]));
                assert(has_key(c.proposals, roots@[0]) && c.chain_len(roots@[0]) == low);
            }
            assert(low == 0);
            assert forall|g: HashVal| has_key(c.proposals, g) && c.notarized(g) implies roots@.contains(
                g,
            ) by {
                let j = choose|j: int| 0 <= j < c.proposals.len() && (#[trigger] c.proposals[j]).0 == g;
                assert(c.notarized(c.proposals[j].0));
                assert(roots@.contains(g) <==> has_key(c.proposals, g) && c.notarized(g)
                    && c.chain_len(g) == low);
            }
            assert forall|g: HashVal| has_key(c.solicits, g) && c.notarized(g) implies c.chain_len(g)
                <= high && links@.len() > 0 by {
                let j = choose|j: int| 0 <= j < c.solicits.len() && (#[trigger] c.solicits[j]).0 == g;
                assert(c.notarized(c.solicits[j].0));
                if links@.len() == 0 {
                    assert(!c.notarized(c.solicits[j].0));
                }
            }
            assert forall|g: HashVal| #[trigger] c.candidate(g) implies (has_key(c.proposals, g)
                && c.chain_len(g) == 0 && roots@.contains(g)) || (has_key(c.solicits, g) && 1
                <= c.chain_len(g) <= high && links@.len() > 0) by {}
            if links@.len() > 0 {
                let top = links@[0];
                assert(links@.contains(top));
                assert(has_key(c.solicits, top) && c.notarized(top) && c.chain_len(top) == high);
                assert(c.candidate(top));
                assert forall|h: HashVal| links@.contains(h) <==> c.is_tip(h) by {
                    assert(links@.contains(h) <==> has_key(c.solicits, h) && c.notarized(h)
                        && c.chain_len(h) == high);
                    if c.is_tip(h) {
                        assert(c.chain_len(top) <= c.chain_len(h));
                    }
                }
            } else {
                assert forall|h: HashVal| roots@.contains(h) <==> c.is_tip(h) by {
                    assert(roots@.contains(h) <==> has_key(c.proposals, h) && c.notarized(h)
                        && c.chain_len(h) == low);
                }
            }
        }
        if links.len() > 0 {
            links
        } else {
            roots
        }
    }

    /// The proposal that has been decided, if one has: the root of the first
    /// longest notarized chain, in the hash order of the tips, that holds three
    /// consecutive ticks.
    pub fn get_finalized(&self) -> (r: Option<&Proposal>)
        requires
            self.wf(),
        ensures
            r is Some <==> exists|h: HashVal| self@.finalizes(h),
            match r {
                Some(p) => Some(p@),
                None => None,
            } == self@.decision(),
    {
        let tips = self.get_lnc_tips();
        let mut i: usize = 0;
        while i < tips.len()
            invariant
                self.wf(),
                i <= tips@.len(),
                forall|h: HashVal| tips@.contains(h) <==> self@.is_tip(h),
                ascending(tips@),
                forall|k: int| 0 <= k < i ==> !self@.finalizes(#[trigger] tips@[k]),
            decreases tips@.len() - i,
        {
            let tip = tips[i];
            assert(tips@.contains(tip));
            let (ticks, root) = self.trace(tip);
            if has_three_in_a_row(&ticks) {
                proof {
                    assert(self@.finalizes(tip));
                    assert forall|g: HashVal| #[trigger] self@.finalizes(g) implies !g.lt(tip) by {
                        assert(tips@.contains(g));
                        let k = choose|k: int| 0 <= k < tips@.len() && tips@[k] == g;
                        if k < i {
                            assert(!self@.finalizes(tips@[k]));
                        } else if k > i {
                            assert(tips@[i as int].lt(tips@[k]));
                        }
                    }
                    assert(self@.decides(tip));
                    lemma_decides_unique(self@, tip, choose|h: HashVal| self@.decides(h));
                }
                return self.valid_proposals.get(&root);
            }
            i += 1;
        }
        proof {
            assert forall|h: HashVal| !self@.finalizes(h) by {
                if self@.finalizes(h) {
                    assert(tips@.contains(h));
                    let k = choose|k: int| 0 <= k < tips@.len() && tips@[k] == h;
                    assert(!self@.finalizes(tips@[k]));
                }
            }
            assert forall|h: HashVal| !self@.decides(h) by {}
        }
        None
    }
}

} // verus!
