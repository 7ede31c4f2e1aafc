//! What holds of every state that admission can reach, and of the queries on
//! it.

use crate::bytes32::{HashVal, PublicKey};
use crate::model::{
    by_tick, diff_key, fingerprint, lemma_decides_unique, lemma_inv_sorted, lemma_keyed_by_hash,
    lemma_root, lemma_with_proposal, lemma_with_solicit, lemma_with_vote, message_source,
    news_votes, peer_differs, place, place_proposals, place_solicits, tally, total_weight,
    weight_of, CoreView, InsertError,
};
use crate::msg::{DiffMessageView, ProposalView, SolicitView, VoteView};
use crate::ordered_map::{
    has_key, index_of, lemma_index_unique, lemma_put_all, lemma_put_twice, lemma_same_entries,
    put, value_of,
};
use vstd::prelude::*;

verus! {

/// Offering a message to a sound state gives a sound state, whether the
/// message is admitted or not.
pub proof fn law_offer_keeps_invariant(c: CoreView, m: DiffMessageView)
    requires
        c.inv(),
    ensures
        c.offer(m).inv(),
{
    match m {
        DiffMessageView::Proposal(p) => {
            if c.proposal_verdict(p) is None {
                lemma_with_proposal(c, p);
            }
        },
        DiffMessageView::Solicit(s) => {
            if c.solicit_verdict(s) is None {
                lemma_with_solicit(c, s);
            }
        },
        DiffMessageView::Vote(v) => {
            if c.vote_verdict(v) is None {
                lemma_with_vote(c, v);
            }
        },
    }
}

/// Admission only adds: whatever was known before a message was offered is
/// known after it, proposals and solicits as they were.
pub proof fn law_offer_only_adds(c: CoreView, m: DiffMessageView, h: HashVal)
    requires
        c.inv(),
    ensures
        has_key(c.proposals, h) ==> has_key(c.offer(m).proposals, h) && value_of(
            c.offer(m).proposals,
            h,
        ) == value_of(c.proposals, h),
        has_key(c.solicits, h) ==> has_key(c.offer(m).solicits, h) && value_of(
            c.offer(m).solicits,
            h,
        ) == value_of(c.solicits, h),
        has_key(c.votes, h) ==> has_key(c.offer(m).votes, h),
        c.offer(m).seen.subset_of(c.seen.insert((diff_key(m), message_source(m)))),
        c.seen.subset_of(c.offer(m).seen),
{
    lemma_inv_sorted(c);
    match m {
        DiffMessageView::Proposal(p) => {
            lemma_put_all(c.proposals, p.chash(), p);
            if c.proposal_verdict(p) is None && has_key(c.proposals, h) {
                assert(c.is_node(h));
                assert(has_key(put(c.proposals, p.chash(), p), h));
            }
        },
        DiffMessageView::Solicit(s) => {
            lemma_put_all(c.solicits, s.chash(), s);
            if c.solicit_verdict(s) is None && has_key(c.solicits, h) {
                assert(c.is_node(h));
                assert(has_key(put(c.solicits, s.chash(), s), h));
            }
        },
        DiffMessageView::Vote(v) => {
            lemma_put_all(c.votes, v.chash(), v);
            if c.vote_verdict(v) is None && has_key(c.votes, h) {
                assert(has_key(put(c.votes, v.chash(), v), h));
            }
        },
    }
}

/// No two distinct proposals or solicits have the same tick and the same
/// author.
pub proof fn law_non_equivocation(c: CoreView, a: HashVal, b: HashVal)
    requires
        c.inv(),
        c.is_node(a),
        c.is_node(b),
        a != b,
    ensures
        c.node_tick(a) != c.node_tick(b) || c.node_source(a) != c.node_source(b),
{
    reveal(CoreView::inv);
}

/// Once a proposal or solicit of an author for a tick has been admitted, any
/// other proposal of that author for that tick that passes the checks before
/// it is refused as an equivocation.
pub proof fn law_second_proposal_is_refused(c: CoreView, first: DiffMessageView, second: ProposalView)
    requires
        c.inv(),
        !(first is Vote),
        c.verdict(first) is None,
        second.tick == diff_key(first),
        second.source == message_source(first),
        second.nonce == c.nonce,
        second.signed(),
        second.tick <= c.max_tick,
    ensures
        c.offer(first).proposal_verdict(second) == Some(InsertError::Equivocation),
{
}

/// Once a proposal or solicit of an author for a tick has been admitted, any
/// other solicit of that author for that tick that passes the checks before
/// it is refused as an equivocation.
pub proof fn law_second_solicit_is_refused(c: CoreView, first: DiffMessageView, second: SolicitView)
    requires
        c.inv(),
        !(first is Vote),
        c.verdict(first) is None,
        second.tick == diff_key(first),
        second.source == message_source(first),
        second.nonce == c.nonce,
        second.signed(),
        second.tick <= c.max_tick,
        c.offer(first).is_node(second.previous),
        c.offer(first).node_tick(second.previous) < second.tick,
    ensures
        c.offer(first).solicit_verdict(second) == Some(InsertError::Equivocation),
{
}

/// The parent of every admitted solicit is an admitted proposal or solicit.
pub proof fn law_parent_exists(c: CoreView, h: HashVal)
    requires
        c.inv(),
        has_key(c.solicits, h),
    ensures
        c.is_node(value_of(c.solicits, h).previous),
{
    reveal(CoreView::inv);
    assert(c.solicit_sound(h));
}

/// The target of every admitted vote is an admitted proposal or solicit.
pub proof fn law_target_exists(c: CoreView, h: HashVal)
    requires
        c.inv(),
        has_key(c.votes, h),
    ensures
        c.is_node(value_of(c.votes, h).voting_for),
{
    reveal(CoreView::inv);
    assert(c.vote_sound(h));
}

/// The tick of every admitted solicit exceeds the tick of its parent.
pub proof fn law_monotonic_tick(c: CoreView, h: HashVal)
    requires
        c.inv(),
        has_key(c.solicits, h),
    ensures
        c.node_tick(value_of(c.solicits, h).previous) < value_of(c.solicits, h).tick,
{
    reveal(CoreView::inv);
    assert(c.solicit_sound(h));
}

/// Every admitted message belongs to the instance, is stored under its
/// canonical hash, and carries its author's signature over that hash.
pub proof fn law_signature_integrity(c: CoreView, h: HashVal)
    requires
        c.inv(),
    ensures
        has_key(c.proposals, h) ==> {
            let p = value_of(c.proposals, h);
            p.chash() == h && p.signed() && p.nonce == c.nonce
        },
        has_key(c.solicits, h) ==> {
            let s = value_of(c.solicits, h);
            s.chash() == h && s.signed() && s.nonce == c.nonce
        },
        has_key(c.votes, h) ==> {
            let v = value_of(c.votes, h);
            v.chash() == h && v.signed() && v.nonce == c.nonce
        },
{
    reveal(CoreView::inv);
    if has_key(c.proposals, h) {
        assert(c.proposal_sound(h));
    }
    if has_key(c.solicits, h) {
        assert(c.solicit_sound(h));
    }
    if has_key(c.votes, h) {
        assert(c.vote_sound(h));
    }
}

/// No hash names both a proposal and a solicit.
pub proof fn law_nodes_disjoint(c: CoreView, h: HashVal)
    requires
        c.inv(),
    ensures
        !(has_key(c.proposals, h) && has_key(c.solicits, h)),
{
    reveal(CoreView::inv);
    if has_key(c.proposals, h) {
        assert(c.proposal_sound(h));
    }
}

/// Offering a message a second time changes nothing: a proposal or solicit
/// that was admitted is refused as an equivocation, a vote that was admitted
/// takes its own place again, and a message that was refused is refused
/// again.
pub proof fn law_offer_twice(c: CoreView, m: DiffMessageView)
    requires
        c.inv(),
    ensures
        c.offer(m).offer(m) == c.offer(m),
{
    reveal(CoreView::inv);
    match m {
        DiffMessageView::Proposal(p) => {
            if c.proposal_verdict(p) is None {
                let d = c.with_proposal(p);
                assert(d.seen.contains((p.tick, p.source)));
            }
        },
        DiffMessageView::Solicit(s) => {
            if c.solicit_verdict(s) is None {
                let d = c.with_solicit(s);
                lemma_with_solicit(c, s);
                assert(d.seen.contains((s.tick, s.source)));
                assert(d.is_node(s.previous));
                assert(d.node_tick(s.previous) == c.node_tick(s.previous));
            }
        },
        DiffMessageView::Vote(v) => {
            if c.vote_verdict(v) is None {
                lemma_put_twice(c.votes, v.chash(), v);
            }
        },
    }
}

/// A solicit needs a proposal at its root: a state without proposals has no
/// solicits.
proof fn lemma_rootless(c: CoreView, h: HashVal)
    requires
        c.inv(),
        c.proposals.len() == 0,
    ensures
        !has_key(c.solicits, h),
    decreases c.node_tick(h),
{
    reveal(CoreView::inv);
    if has_key(c.solicits, h) {
        assert(c.solicit_sound(h));
        lemma_rootless(c, value_of(c.solicits, h).previous);
    }
}

/// A state without proposals has an empty summary and no tip of a longest
/// notarized chain.
pub proof fn law_no_proposals(c: CoreView, summary: Seq<(HashVal, HashVal)>)
    requires
        c.inv(),
        c.proposals.len() == 0,
        c.is_summary(summary),
    ensures
        summary.len() == 0,
        forall|h: HashVal| !c.is_tip(h),
        c.decision() is None,
{
    assert forall|h: HashVal| !c.is_node(h) by {
        lemma_rootless(c, h);
    }
    if summary.len() > 0 {
        assert(has_key(summary, summary[0].0));
    }
    assert forall|h: HashVal| !c.is_tip(h) by {
        assert(!c.candidate(h));
    }
    assert forall|h: HashVal| !c.decides(h) by {}
}

/// While no vote has been admitted, nothing is notarized, no chain has a
/// tip and nothing is decided.
pub proof fn law_no_votes(c: CoreView)
    requires
        c.votes.len() == 0,
    ensures
        forall|h: HashVal| !c.notarized(h),
        forall|h: HashVal| !c.is_tip(h),
        c.decision() is None,
{
    assert forall|h: HashVal| !c.notarized(h) by {
        assert(tally(c.votes, c.weights, h) == 0);
    }
    assert forall|h: HashVal| !c.is_tip(h) by {
        assert(!c.candidate(h));
    }
    assert forall|h: HashVal| !c.decides(h) by {}
}

/// Where the weights sum to 0, each of them is 0.
proof fn lemma_weightless(weights: Seq<(PublicKey, u64)>, i: int)
    requires
        total_weight(weights) == 0,
        0 <= i < weights.len(),
    ensures
        weights[i].1 == 0,
    decreases weights.len(),
{
    if i < weights.len() - 1 {
        lemma_weightless(weights.drop_last(), i);
    }
}

/// Where the weights sum to 0, every tally is 0.
proof fn lemma_tally_weightless(
    votes: Seq<(HashVal, VoteView)>,
    weights: Seq<(PublicKey, u64)>,
    h: HashVal,
)
    requires
        total_weight(weights) == 0,
    ensures
        tally(votes, weights, h) == 0,
    decreases votes.len(),
{
    if votes.len() > 0 {
        lemma_tally_weightless(votes.drop_last(), weights, h);
        let who = votes.last().1.source;
        if has_key(weights, who) {
            lemma_weightless(weights, index_of(weights, who));
        }
        assert(weight_of(weights, who) == 0);
    }
}

/// Where the weights sum to 0, no hash is notarized, whatever votes there
/// are: more than two thirds of nothing is more than no participant holds.
pub proof fn law_zero_weight(c: CoreView, h: HashVal)
    requires
        total_weight(c.weights) == 0,
    ensures
        !c.notarized(h),
        !c.is_tip(h),
{
    lemma_tally_weightless(c.votes, c.weights, h);
}

/// What is decided is the proposal at the root of a longest notarized chain
/// whose ticks hold three in a row.
pub proof fn law_decision_is_rooted(c: CoreView)
    requires
        c.inv(),
        c.decision() is Some,
    ensures
        exists|h: HashVal|
            c.finalizes(h) && has_key(c.proposals, c.root_of(h)) && c.decision() == Some(
                value_of(c.proposals, c.root_of(h)),
            ),
{
    let h = choose|h: HashVal| c.decides(h);
    assert(c.finalizes(h));
    lemma_root(c, h);
}

/// A state has one summary.
pub proof fn law_summary_unique(
    c: CoreView,
    first: Seq<(HashVal, HashVal)>,
    second: Seq<(HashVal, HashVal)>,
)
    requires
        c.is_summary(first),
        c.is_summary(second),
    ensures
        first == second,
{
    assert forall|h: HashVal| #[trigger] has_key(first, h) implies value_of(first, h) == value_of(
        second,
        h,
    ) by {
        assert(c.is_node(h));
    }
    lemma_same_entries(first, second);
}

/// The chain behind a hash is the same in two states with the same
/// proposals and solicits.
proof fn lemma_same_chain(c: CoreView, d: CoreView, h: HashVal)
    requires
        c.proposals == d.proposals,
        c.solicits == d.solicits,
    ensures
        c.chain_len(h) == d.chain_len(h),
        c.tick_path(h) == d.tick_path(h),
        c.root_of(h) == d.root_of(h),
    decreases c.node_tick(h),
{
    if c.grows(h) {
        lemma_same_chain(c, d, value_of(c.solicits, h).previous);
    }
}

/// What is notarized, which chains are longest and what is decided depend on
/// the messages and the weights alone: two states that hold the same
/// messages under the same weights answer alike.
pub proof fn law_same_messages_same_answers(c: CoreView, d: CoreView)
    requires
        c.proposals == d.proposals,
        c.solicits == d.solicits,
        c.votes == d.votes,
        c.weights == d.weights,
    ensures
        forall|h: HashVal| c.notarized(h) == d.notarized(h),
        forall|h: HashVal| c.is_tip(h) == d.is_tip(h),
        forall|h: HashVal| c.finalizes(h) == d.finalizes(h),
        c.decision() == d.decision(),
        forall|m: Seq<(HashVal, HashVal)>| c.is_summary(m) == d.is_summary(m),
{
    assert forall|h: HashVal| c.candidate(h) == d.candidate(h) by {}
    assert forall|h: HashVal| c.is_tip(h) == d.is_tip(h) by {
        assert forall|g: HashVal| c.chain_len(g) == d.chain_len(g) by {
            lemma_same_chain(c, d, g);
        }
        if c.is_tip(h) {
            assert forall|g: HashVal| #[trigger] d.candidate(g) implies d.chain_len(g)
                <= d.chain_len(h) by {
                assert(c.candidate(g));
            }
        }
        if d.is_tip(h) {
            assert forall|g: HashVal| #[trigger] c.candidate(g) implies c.chain_len(g)
                <= c.chain_len(h) by {
                assert(d.candidate(g));
            }
        }
    }
    assert forall|h: HashVal| c.finalizes(h) == d.finalizes(h) by {
        lemma_same_chain(c, d, h);
    }
    assert forall|h: HashVal| c.decides(h) == d.decides(h) by {
        if c.decides(h) {
            assert forall|g: HashVal| #[trigger] d.finalizes(g) implies !g.lt(h) by {
                assert(c.finalizes(g));
            }
        }
        if d.decides(h) {
            assert forall|g: HashVal| #[trigger] c.finalizes(g) implies !g.lt(h) by {
                assert(d.finalizes(g));
            }
        }
    }
    if exists|h: HashVal| c.decides(h) {
        let h = choose|h: HashVal| c.decides(h);
        let g = choose|g: HashVal| d.decides(g);
        assert(d.decides(h));
        lemma_decides_unique(d, h, g);
        lemma_same_chain(c, d, h);
    } else {
        assert forall|h: HashVal| !d.decides(h) by {
            assert(!c.decides(h));
        }
    }
    assert forall|m: Seq<(HashVal, HashVal)>| c.is_summary(m) == d.is_summary(m) by {
        if c.is_summary(m) {
            assert forall|h: HashVal| #[trigger] d.is_node(h) implies value_of(m, h) == fingerprint(
                d.votes,
                h,
            ) by {
                assert(c.is_node(h));
            }
        }
        if d.is_summary(m) {
            assert forall|h: HashVal| #[trigger] c.is_node(h) implies value_of(m, h) == fingerprint(
                c.votes,
                h,
            ) by {
                assert(d.is_node(h));
            }
        }
    }
}

/// Placing a message adds it to the list and takes nothing away.
pub(crate) proof fn lemma_place_contents(list: Seq<DiffMessageView>, m: DiffMessageView)
    ensures
        place(list, m).len() == list.len() + 1,
        forall|x: DiffMessageView|
            #[trigger] place(list, m).contains(x) <==> (x == m || list.contains(x)),
    decreases list.len(),
{
    let r = place(list, m);
    if list.len() == 0 {
        assert(r[0] == m);
        assert forall|x: DiffMessageView| #[trigger]
            r.contains(x) <==> (x == m || list.contains(x)) by {}
    } else if diff_key(list.last()) <= diff_key(m) {
        assert forall|x: DiffMessageView| #[trigger]
            r.contains(x) <==> (x == m || list.contains(x)) by {
            if r.contains(x) {
                let i = choose|i: int| 0 <= i < r.len() && r[i] == x;
                if i < list.len() {
                    assert(list[i] == x);
                }
            }
            if list.contains(x) {
                let i = choose|i: int| 0 <= i < list.len() && list[i] == x;
                assert(r[i] == x);
            }
            if x == m {
                assert(r[list.len() as int] == x);
            }
        }
    } else {
        let front = list.drop_last();
        let q = place(front, m);
        lemma_place_contents(front, m);
        assert forall|x: DiffMessageView| #[trigger]
            r.contains(x) <==> (x == m || list.contains(x)) by {
            assert(q.contains(x) <==> (x == m || front.contains(x)));
            if r.contains(x) {
                let i = choose|i: int| 0 <= i < r.len() && r[i] == x;
                if i < q.len() {
                    assert(q[i] == x);
                    assert(q.contains(x));
                    if front.contains(x) {
                        let j = choose|j: int| 0 <= j < front.len() && front[j] == x;
                        assert(list[j] == x);
                    }
                } else {
                    assert(list[list.len() - 1] == x);
                }
            }
            if list.contains(x) {
                let i = choose|i: int| 0 <= i < list.len() && list[i] == x;
                if i < front.len() {
                    assert(front[i] == x);
                    assert(front.contains(x));
                    let j = choose|j: int| 0 <= j < q.len() && q[j] == x;
                    assert(r[j] == x);
                } else {
                    assert(r[q.len() as int] == x);
                }
            }
            if x == m {
                let j = choose|j: int| 0 <= j < q.len() && q[j] == x;
                assert(r[j] == x);
            }
        }
    }
}

/// Placing a message in a list that is in tick order leaves it in tick order.
pub(crate) proof fn lemma_place_in_order(list: Seq<DiffMessageView>, m: DiffMessageView)
    requires
        by_tick(list),
    ensures
        by_tick(place(list, m)),
    decreases list.len(),
{
    let r = place(list, m);
    if list.len() == 0 {
    } else if diff_key(list.last()) <= diff_key(m) {
        assert forall|i: int, j: int| 0 <= i < j < r.len() implies diff_key(#[trigger] r[i])
            <= diff_key(#[trigger] r[j]) by {
            if j < list.len() {
                assert(diff_key(list[i]) <= diff_key(list[j]));
            } else if i < list.len() - 1 {
                assert(diff_key(list[i]) <= diff_key(list[list.len() - 1]));
            }
        }
    } else {
        let front = list.drop_last();
        let q = place(front, m);
        assert(by_tick(front)) by {
            assert forall|i: int, j: int| 0 <= i < j < front.len() implies diff_key(
                #[trigger] front[i],
            ) <= diff_key(#[trigger] front[j]) by {
                assert(diff_key(list[i]) <= diff_key(list[j]));
            }
        }
        lemma_place_in_order(front, m);
        lemma_place_contents(front, m);
        assert forall|i: int, j: int| 0 <= i < j < r.len() implies diff_key(#[trigger] r[i])
            <= diff_key(#[trigger] r[j]) by {
            if j < q.len() {
                assert(diff_key(q[i]) <= diff_key(q[j]));
            } else {
                assert(q.contains(q[i]));
                if front.contains(q[i]) {
                    let k = choose|k: int| 0 <= k < front.len() && front[k] == q[i];
                    assert(diff_key(list[k]) <= diff_key(list[list.len() - 1]));
                }
            }
        }
    }
}

/// What the proposals of `s` add to `start`, and that tick order is kept.
pub(crate) proof fn lemma_place_proposals(
    start: Seq<DiffMessageView>,
    s: Seq<(HashVal, ProposalView)>,
    theirs: Seq<(HashVal, HashVal)>,
)
    requires
        by_tick(start),
    ensures
        by_tick(place_proposals(start, s, theirs)),
        forall|x: DiffMessageView|
            #[trigger] place_proposals(start, s, theirs).contains(x) <==> (start.contains(x)
                || exists|i: int|
                0 <= i < s.len() && !has_key(theirs, (#[trigger] s[i]).0) && x
                    == DiffMessageView::Proposal(s[i].1)),
    decreases s.len(),
{
    let r = place_proposals(start, s, theirs);
    if s.len() > 0 {
        let front = s.drop_last();
        let q = place_proposals(start, front, theirs);
        let last = s.len() - 1;
        lemma_place_proposals(start, front, theirs);
        if !has_key(theirs, s.last().0) {
            lemma_place_in_order(q, DiffMessageView::Proposal(s.last().1));
            lemma_place_contents(q, DiffMessageView::Proposal(s.last().1));
        }
        assert forall|x: DiffMessageView| #[trigger] r.contains(x) <==> (start.contains(x)
            || exists|i: int|
            0 <= i < s.len() && !has_key(theirs, (#[trigger] s[i]).0) && x
                == DiffMessageView::Proposal(s[i].1)) by {
            assert(q.contains(x) <==> (start.contains(x) || exists|i: int|
                0 <= i < front.len() && !has_key(theirs, (#[trigger] front[i]).0) && x
                    == DiffMessageView::Proposal(front[i].1)));
            if exists|i: int|
                0 <= i < front.len() && !has_key(theirs, (#[trigger] front[i]).0) && x
                    == DiffMessageView::Proposal(front[i].1) {
                let i = choose|i: int|
                    0 <= i < front.len() && !has_key(theirs, (#[trigger] front[i]).0) && x
                        == DiffMessageView::Proposal(front[i].1);
                assert(!has_key(theirs, s[i].0) && x == DiffMessageView::Proposal(s[i].1));
            }
            if exists|i: int|
                0 <= i < s.len() && !has_key(theirs, (#[trigger] s[i]).0) && x
                    == DiffMessageView::Proposal(s[i].1) {
                let i = choose|i: int|
                    0 <= i < s.len() && !has_key(theirs, (#[trigger] s[i]).0) && x
                        == DiffMessageView::Proposal(s[i].1);
                if i < last {
                    assert(!has_key(theirs, front[i].0) && x == DiffMessageView::Proposal(
                        front[i].1,
                    ));
                }
            }
            if !has_key(theirs, s[last].0) && x == DiffMessageView::Proposal(s[last].1) {
                assert(r.contains(x));
            }
        }
    }
}

/// What the solicits of `s` add to `start`, and that tick order is kept.
pub(crate) proof fn lemma_place_solicits(
    start: Seq<DiffMessageView>,
    s: Seq<(HashVal, SolicitView)>,
    theirs: Seq<(HashVal, HashVal)>,
)
    requires
        by_tick(start),
    ensures
        by_tick(place_solicits(start, s, theirs)),
        forall|x: DiffMessageView|
            #[trigger] place_solicits(start, s, theirs).contains(x) <==> (start.contains(x)
                || exists|i: int|
                0 <= i < s.len() && !has_key(theirs, (#[trigger] s[i]).0) && x
                    == DiffMessageView::Solicit(s[i].1)),
    decreases s.len(),
{
    let r = place_solicits(start, s, theirs);
    if s.len() > 0 {
        let front = s.drop_last();
        let q = place_solicits(start, front, theirs);
        let last = s.len() - 1;
        lemma_place_solicits(start, front, theirs);
        if !has_key(theirs, s.last().0) {
            lemma_place_in_order(q, DiffMessageView::Solicit(s.last().1));
            lemma_place_contents(q, DiffMessageView::Solicit(s.last().1));
        }
        assert forall|x: DiffMessageView| #[trigger] r.contains(x) <==> (start.contains(x)
            || exists|i: int|
            0 <= i < s.len() && !has_key(theirs, (#[trigger] s[i]).0) && x
                == DiffMessageView::Solicit(s[i].1)) by {
            assert(q.contains(x) <==> (start.contains(x) || exists|i: int|
                0 <= i < front.len() && !has_key(theirs, (#[trigger] front[i]).0) && x
                    == DiffMessageView::Solicit(front[i].1)));
            if exists|i: int|
                0 <= i < front.len() && !has_key(theirs, (#[trigger] front[i]).0) && x
                    == DiffMessageView::Solicit(front[i].1) {
                let i = choose|i: int|
                    0 <= i < front.len() && !has_key(theirs, (#[trigger] front[i]).0) && x
                        == DiffMessageView::Solicit(front[i].1);
                assert(!has_key(theirs, s[i].0) && x == DiffMessageView::Solicit(s[i].1));
            }
            if exists|i: int|
                0 <= i < s.len() && !has_key(theirs, (#[trigger] s[i]).0) && x
                    == DiffMessageView::Solicit(s[i].1) {
                let i = choose|i: int|
                    0 <= i < s.len() && !has_key(theirs, (#[trigger] s[i]).0) && x
                        == DiffMessageView::Solicit(s[i].1);
                if i < last {
                    assert(!has_key(theirs, front[i].0) && x == DiffMessageView::Solicit(
                        front[i].1,
                    ));
                }
            }
            if !has_key(theirs, s[last].0) && x == DiffMessageView::Solicit(s[last].1) {
                assert(r.contains(x));
            }
        }
    }
}

/// Which votes are news to a peer.
pub(crate) proof fn lemma_news_votes(
    votes: Seq<(HashVal, VoteView)>,
    n: int,
    theirs: Seq<(HashVal, HashVal)>,
)
    requires
        0 <= n <= votes.len(),
    ensures
        forall|x: DiffMessageView|
            #[trigger] news_votes(votes, n, theirs).contains(x) <==> exists|i: int|
                0 <= i < n && peer_differs(votes, theirs, (#[trigger] votes[i]).1.voting_for) && x
                    == DiffMessageView::Vote(votes[i].1),
        forall|k: int|
            0 <= k < news_votes(votes, n, theirs).len() ==> #[trigger] news_votes(votes, n, theirs)[k]
                is Vote,
    decreases n,
{
    let r = news_votes(votes, n, theirs);
    if n > 0 {
        let q = news_votes(votes, n - 1, theirs);
        lemma_news_votes(votes, n - 1, theirs);
        let sent = peer_differs(votes, theirs, votes[n - 1].1.voting_for);
        assert forall|x: DiffMessageView| #[trigger] r.contains(x) <==> exists|i: int|
            0 <= i < n && peer_differs(votes, theirs, (#[trigger] votes[i]).1.voting_for) && x
                == DiffMessageView::Vote(votes[i].1) by {
            assert(q.contains(x) <==> exists|i: int|
                0 <= i < n - 1 && peer_differs(votes, theirs, (#[trigger] votes[i]).1.voting_for)
                    && x == DiffMessageView::Vote(votes[i].1));
            if q.contains(x) {
                let i = choose|i: int|
                    0 <= i < n - 1 && peer_differs(
                        votes,
                        theirs,
                        (#[trigger] votes[i]).1.voting_for,
                    ) && x == DiffMessageView::Vote(votes[i].1);
                assert(0 <= i < n && peer_differs(votes, theirs, votes[i].1.voting_for));
                if sent {
                    let k = choose|k: int| 0 <= k < q.len() && q[k] == x;
                    assert(r[k] == x);
                }
            }
            if sent && x == DiffMessageView::Vote(votes[n - 1].1) {
                assert(r[q.len() as int] == x);
            }
            if r.contains(x) {
                let k = choose|k: int| 0 <= k < r.len() && r[k] == x;
                if k < q.len() {
                    assert(q[k] == x);
                } else {
                    assert(peer_differs(votes, theirs, votes[n - 1].1.voting_for));
                }
            }
            if exists|i: int|
                0 <= i < n && peer_differs(votes, theirs, (#[trigger] votes[i]).1.voting_for) && x
                    == DiffMessageView::Vote(votes[i].1) {
                let i = choose|i: int|
                    0 <= i < n && peer_differs(votes, theirs, (#[trigger] votes[i]).1.voting_for)
                        && x == DiffMessageView::Vote(votes[i].1);
                if i < n - 1 {
                    assert(q.contains(x));
                }
            }
        }
    }
}

/// A diff can be applied from front to back: its proposals and solicits come
/// in ascending tick order, and its votes behind them all.
pub proof fn law_diff_in_tick_order(c: CoreView, theirs: Seq<(HashVal, HashVal)>)
    ensures
        by_tick(c.diff(theirs)),
{
    let roots = place_proposals(Seq::empty(), c.proposals, theirs);
    let nodes = place_solicits(roots, c.solicits, theirs);
    let votes = news_votes(c.votes, c.votes.len() as int, theirs);
    lemma_place_proposals(Seq::empty(), c.proposals, theirs);
    lemma_place_solicits(roots, c.solicits, theirs);
    lemma_news_votes(c.votes, c.votes.len() as int, theirs);
    let d = c.diff(theirs);
    assert forall|i: int, j: int| 0 <= i < j < d.len() implies diff_key(#[trigger] d[i]) <= diff_key(
        #[trigger] d[j],
    ) by {
        if j < nodes.len() {
            assert(diff_key(nodes[i]) <= diff_key(nodes[j]));
        } else {
            assert(d[j] == votes[j - nodes.len()]);
            assert(votes[j - nodes.len()] is Vote);
        }
    }
}

/// A diff holds what the peer is owed and nothing else: each proposal and
/// solicit that the peer's summary has no entry for, and each vote for a node
/// whose fingerprint the peer has not.
pub proof fn law_diff_contents(c: CoreView, theirs: Seq<(HashVal, HashVal)>, m: DiffMessageView)
    requires
        c.inv(),
    ensures
        c.diff(theirs).contains(m) <==> c.owes(theirs, m),
{
    let roots = place_proposals(Seq::empty(), c.proposals, theirs);
    let nodes = place_solicits(roots, c.solicits, theirs);
    let votes = news_votes(c.votes, c.votes.len() as int, theirs);
    lemma_place_proposals(Seq::empty(), c.proposals, theirs);
    lemma_place_solicits(roots, c.solicits, theirs);
    lemma_news_votes(c.votes, c.votes.len() as int, theirs);
    lemma_keyed_by_hash(c);
    lemma_inv_sorted(c);
    let d = c.diff(theirs);
    assert(d.contains(m) <==> (nodes.contains(m) || votes.contains(m))) by {
        if d.contains(m) {
            let k = choose|k: int| 0 <= k < d.len() && d[k] == m;
            if k < nodes.len() {
                assert(nodes[k] == m);
            } else {
                assert(votes[k - nodes.len()] == m);
            }
        }
        if nodes.contains(m) {
            let k = choose|k: int| 0 <= k < nodes.len() && nodes[k] == m;
            assert(d[k] == m);
        }
        if votes.contains(m) {
            let k = choose|k: int| 0 <= k < votes.len() && votes[k] == m;
            assert(d[nodes.len() + k] == m);
        }
    }
    assert(nodes.contains(m) <==> (roots.contains(m) || exists|i: int|
        0 <= i < c.solicits.len() && !has_key(theirs, (#[trigger] c.solicits[i]).0) && m
            == DiffMessageView::Solicit(c.solicits[i].1)));
    assert(roots.contains(m) <==> (Seq::<DiffMessageView>::empty().contains(m) || exists|i: int|
        0 <= i < c.proposals.len() && !has_key(theirs, (#[trigger] c.proposals[i]).0) && m
            == DiffMessageView::Proposal(c.proposals[i].1)));
    assert(votes.contains(m) <==> exists|i: int|
        0 <= i < c.votes.len() && peer_differs(c.votes, theirs, (#[trigger] c.votes[i]).1.voting_for)
            && m == DiffMessageView::Vote(c.votes[i].1));
    match m {
        DiffMessageView::Proposal(p) => {
            if c.owes(theirs, m) {
                let i = index_of(c.proposals, p.chash());
                assert(c.proposals[i].0 == p.chash());
                assert(!has_key(theirs, c.proposals[i].0) && m == DiffMessageView::Proposal(
                    c.proposals[i].1,
                ));
            }
            if d.contains(m) {
                let i = choose|i: int|
                    0 <= i < c.proposals.len() && !has_key(theirs, (#[trigger] c.proposals[i]).0)
                        && m == DiffMessageView::Proposal(c.proposals[i].1);
                lemma_index_unique(c.proposals, c.proposals[i].0, i);
            }
        },
        DiffMessageView::Solicit(s) => {
            if c.owes(theirs, m) {
                let i = index_of(c.solicits, s.chash());
                assert(c.solicits[i].0 == s.chash());
                assert(!has_key(theirs, c.solicits[i].0) && m == DiffMessageView::Solicit(
                    c.solicits[i].1,
                ));
            }
            if d.contains(m) {
                let i = choose|i: int|
                    0 <= i < c.solicits.len() && !has_key(theirs, (#[trigger] c.solicits[i]).0)
                        && m == DiffMessageView::Solicit(c.solicits[i].1);
                lemma_index_unique(c.solicits, c.solicits[i].0, i);
            }
        },
        DiffMessageView::Vote(v) => {
            if c.owes(theirs, m) {
                let i = index_of(c.votes, v.chash());
                assert(c.votes[i].0 == v.chash());
                assert(peer_differs(c.votes, theirs, c.votes[i].1.voting_for) && m
                    == DiffMessageView::Vote(c.votes[i].1));
            }
            if d.contains(m) {
                let i = choose|i: int|
                    0 <= i < c.votes.len() && peer_differs(
                        c.votes,
                        theirs,
                        (#[trigger] c.votes[i]).1.voting_for,
                    ) && m == DiffMessageView::Vote(c.votes[i].1);
                lemma_index_unique(c.votes, c.votes[i].0, i);
            }
        },
    }
}

} // verus!
