//! What a diff achieves: a peer that applies it holds the union of the two
//! states.

use crate::bytes32::HashVal;
use crate::laws::{
    law_diff_contents, law_monotonic_tick, law_nodes_disjoint, law_parent_exists,
    law_same_messages_same_answers, lemma_news_votes, lemma_place_proposals,
    lemma_place_solicits,
};
use crate::model::{
    by_tick, diff_key, fingerprint, lemma_inv_sorted, lemma_keyed_by_hash, lemma_with_proposal,
    lemma_with_solicit, lemma_with_vote, news_votes, peer_differs, place, place_proposals,
    place_solicits, CoreView,
};
use crate::msg::{DiffMessageView, ProposalView, SolicitView};
use crate::ordered_map::{
    has_key, index_of, lemma_index_unique, lemma_put_all, lemma_same_entries, sorted, value_of,
};
use vstd::prelude::*;

verus! {

/// The two states belong to one instance, and hold the same message wherever
/// they know the same hash.
pub open spec fn agree(a: CoreView, b: CoreView) -> bool {
    &&& a.nonce == b.nonce
    &&& forall|h: HashVal| #[trigger]
        has_key(a.proposals, h) ==> !has_key(b.solicits, h) && (has_key(b.proposals, h) ==> value_of(
            b.proposals,
            h,
        ) == value_of(a.proposals, h))
    &&& forall|h: HashVal| #[trigger]
        has_key(a.solicits, h) ==> !has_key(b.proposals, h) && (has_key(b.solicits, h) ==> value_of(
            b.solicits,
            h,
        ) == value_of(a.solicits, h))
    &&& forall|h: HashVal| #[trigger]
        has_key(a.votes, h) ==> (has_key(b.votes, h) ==> value_of(b.votes, h) == value_of(
            a.votes,
            h,
        ))
}

/// No node of `a` has the tick and the author of another node of `b`.
pub open spec fn no_cross_equivocation(a: CoreView, b: CoreView) -> bool {
    forall|x: HashVal, y: HashVal|
        #![trigger a.is_node(x), b.is_node(y)]
        a.is_node(x) && b.is_node(y) && x != y ==> (a.node_tick(x), a.node_source(x)) != (
            b.node_tick(y),
            b.node_source(y),
        )
}

/// No node of `a` has a tick above the ceiling of `b`.
pub open spec fn within_horizon(a: CoreView, b: CoreView) -> bool {
    forall|h: HashVal| #[trigger] a.is_node(h) ==> a.node_tick(h) <= b.max_tick
}

/// Equal fingerprints mean equal votes: where `b` has a node with the
/// fingerprint that `a` has for it, `b` has every vote of `a` for it.
pub open spec fn fingerprints_tell(a: CoreView, b: CoreView) -> bool {
    forall|v: HashVal| #[trigger]
        has_key(a.votes, v) && b.is_node(value_of(a.votes, v).voting_for) && fingerprint(
            a.votes,
            value_of(a.votes, v).voting_for,
        ) == fingerprint(b.votes, value_of(a.votes, v).voting_for) ==> has_key(b.votes, v)
}

/// `u` holds the entries of `a` and of `b` and no other.
pub open spec fn table_union<T>(
    u: Seq<(HashVal, T)>,
    a: Seq<(HashVal, T)>,
    b: Seq<(HashVal, T)>,
) -> bool {
    &&& sorted(u)
    &&& forall|h: HashVal| #[trigger] has_key(u, h) <==> has_key(a, h) || has_key(b, h)
    &&& forall|h: HashVal| #[trigger]
        has_key(u, h) ==> value_of(u, h) == (if has_key(a, h) {
            value_of(a, h)
        } else {
            value_of(b, h)
        })
}

/// `u` holds the messages of `a` and of `b` and no other.
pub open spec fn is_union(u: CoreView, a: CoreView, b: CoreView) -> bool {
    &&& table_union(u.proposals, a.proposals, b.proposals)
    &&& table_union(u.solicits, a.solicits, b.solicits)
    &&& table_union(u.votes, a.votes, b.votes)
}

/// The canonical hash of a message.
pub open spec fn message_hash(m: DiffMessageView) -> HashVal {
    match m {
        DiffMessageView::Proposal(p) => p.chash(),
        DiffMessageView::Solicit(s) => s.chash(),
        DiffMessageView::Vote(v) => v.chash(),
    }
}

/// `c` is `b` with those nodes of `a` added whose hashes are in `x`.
spec fn grown(a: CoreView, b: CoreView, x: Set<HashVal>, c: CoreView) -> bool {
    &&& c.inv()
    &&& c.nonce == b.nonce
    &&& c.max_tick == b.max_tick
    &&& c.weights == b.weights
    &&& c.votes == b.votes
    &&& forall|h: HashVal| #[trigger] x.contains(h) ==> a.is_node(h) && !b.is_node(h)
    &&& forall|h: HashVal| #[trigger]
        has_key(c.proposals, h) <==> has_key(b.proposals, h) || (x.contains(h) && has_key(
            a.proposals,
            h,
        ))
    &&& forall|h: HashVal| #[trigger]
        has_key(c.solicits, h) <==> has_key(b.solicits, h) || (x.contains(h) && has_key(
            a.solicits,
            h,
        ))
    &&& forall|h: HashVal| #[trigger]
        has_key(c.proposals, h) ==> value_of(c.proposals, h) == (if has_key(a.proposals, h) {
            value_of(a.proposals, h)
        } else {
            value_of(b.proposals, h)
        })
    &&& forall|h: HashVal| #[trigger]
        has_key(c.solicits, h) ==> value_of(c.solicits, h) == (if has_key(a.solicits, h) {
            value_of(a.solicits, h)
        } else {
            value_of(b.solicits, h)
        })
}

/// The nodes of a grown state are those of `b` and those added, with the
/// ticks and authors that `a` and `b` know them by.
proof fn lemma_grown_node(a: CoreView, b: CoreView, x: Set<HashVal>, c: CoreView, y: HashVal)
    requires
        a.inv(),
        b.inv(),
        agree(a, b),
        grown(a, b, x, c),
    ensures
        c.is_node(y) <==> b.is_node(y) || x.contains(y),
        b.is_node(y) ==> c.node_tick(y) == b.node_tick(y) && c.node_source(y) == b.node_source(y),
        a.is_node(y) && c.is_node(y) ==> c.node_tick(y) == a.node_tick(y) && c.node_source(y)
            == a.node_source(y),
{
    reveal(CoreView::inv);
    if has_key(a.proposals, y) {
        assert(a.proposal_sound(y));
    }
    if has_key(b.proposals, y) {
        assert(b.proposal_sound(y));
    }
    if has_key(a.solicits, y) {
        assert(a.solicit_sound(y));
    }
    if has_key(c.proposals, y) {
        assert(c.proposal_sound(y));
    }
}

/// A missing proposal of `a` whose hash is new is admitted, and the state
/// stays grown.
proof fn lemma_grow_proposal(a: CoreView, b: CoreView, x: Set<HashVal>, c: CoreView, h: HashVal)
    requires
        a.inv(),
        b.inv(),
        agree(a, b),
        no_cross_equivocation(a, b),
        within_horizon(a, b),
        grown(a, b, x, c),
        has_key(a.proposals, h),
        !b.is_node(h),
        !x.contains(h),
    ensures
        c.proposal_verdict(value_of(a.proposals, h)) is None,
        grown(a, b, x.insert(h), c.offer(DiffMessageView::Proposal(value_of(a.proposals, h)))),
{
    let p = value_of(a.proposals, h);
    assert(a.is_node(h));
    assert(h == p.chash() && p.nonce == a.nonce && p.signed() && !has_key(a.solicits, h)) by {
        reveal(CoreView::inv);
        assert(a.proposal_sound(h));
    }
    lemma_grown_node(a, b, x, c, h);
    assert(!c.seen.contains((p.tick, p.source))) by {
        if c.seen.contains((p.tick, p.source)) {
            assert(c.written_at(p.tick, p.source)) by {
                reveal(CoreView::inv);
            }
            let y = choose|y: HashVal|
                #[trigger] c.is_node(y) && c.node_tick(y) == p.tick && c.node_source(y) == p.source;
            lemma_grown_node(a, b, x, c, y);
            if b.is_node(y) {
                assert(a.is_node(h) && b.is_node(y) && h != y);
            } else {
                assert(x.contains(y));
                assert(a.is_node(h) && a.is_node(y) && h != y);
                assert(a.no_equivocation()) by {
                    reveal(CoreView::inv);
                }
            }
        }
    }
    assert(c.proposal_verdict(p) is None);
    let d = c.with_proposal(p);
    lemma_with_proposal(c, p);
    assert(sorted(c.proposals)) by {
        reveal(CoreView::inv);
    }
    lemma_put_all(c.proposals, h, p);
    let x2 = x.insert(h);
    assert forall|q: HashVal| #[trigger] has_key(d.solicits, q) <==> has_key(b.solicits, q) || (
    x2.contains(q) && has_key(a.solicits, q)) by {}
    assert(grown(a, b, x2, d));
}

/// A missing solicit of `a` whose hash is new and whose parent is at hand is
/// admitted, and the state stays grown.
proof fn lemma_grow_solicit(a: CoreView, b: CoreView, x: Set<HashVal>, c: CoreView, h: HashVal)
    requires
        a.inv(),
        b.inv(),
        agree(a, b),
        no_cross_equivocation(a, b),
        within_horizon(a, b),
        grown(a, b, x, c),
        has_key(a.solicits, h),
        !b.is_node(h),
        !x.contains(h),
        b.is_node(value_of(a.solicits, h).previous) || x.contains(value_of(a.solicits, h).previous),
    ensures
        c.solicit_verdict(value_of(a.solicits, h)) is None,
        grown(a, b, x.insert(h), c.offer(DiffMessageView::Solicit(value_of(a.solicits, h)))),
{
    let s = value_of(a.solicits, h);
    assert(a.is_node(h));
    assert(h == s.chash() && s.nonce == a.nonce && s.signed() && a.grows(h)) by {
        reveal(CoreView::inv);
        assert(a.solicit_sound(h));
    }
    assert(!has_key(a.proposals, h)) by {
        reveal(CoreView::inv);
        if has_key(a.proposals, h) {
            assert(a.proposal_sound(h));
        }
    }
    lemma_grown_node(a, b, x, c, h);
    lemma_grown_node(a, b, x, c, s.previous);
    assert(!c.seen.contains((s.tick, s.source))) by {
        if c.seen.contains((s.tick, s.source)) {
            assert(c.written_at(s.tick, s.source)) by {
                reveal(CoreView::inv);
            }
            let y = choose|y: HashVal|
                #[trigger] c.is_node(y) && c.node_tick(y) == s.tick && c.node_source(y) == s.source;
            lemma_grown_node(a, b, x, c, y);
            if b.is_node(y) {
                assert(a.is_node(h) && b.is_node(y) && h != y);
            } else {
                assert(x.contains(y));
                assert(a.is_node(h) && a.is_node(y) && h != y);
                assert(a.no_equivocation()) by {
                    reveal(CoreView::inv);
                }
            }
        }
    }
    assert(c.solicit_verdict(s) is None);
    let d = c.with_solicit(s);
    lemma_with_solicit(c, s);
    assert(sorted(c.solicits)) by {
        reveal(CoreView::inv);
    }
    lemma_put_all(c.solicits, h, s);
    let x2 = x.insert(h);
    assert forall|q: HashVal| #[trigger] has_key(d.proposals, q) <==> has_key(b.proposals, q) || (
    x2.contains(q) && has_key(a.proposals, q)) by {}
    assert(grown(a, b, x2, d));
}

/// The proposals and solicits of the diff of `a` against `theirs`.
spec fn diff_nodes(a: CoreView, theirs: Seq<(HashVal, HashVal)>) -> Seq<DiffMessageView> {
    place_solicits(place_proposals(Seq::empty(), a.proposals, theirs), a.solicits, theirs)
}

/// No two messages of `d` have the same hash.
spec fn distinct(d: Seq<DiffMessageView>) -> bool {
    forall|i: int, j: int|
        0 <= i < j < d.len() ==> message_hash(#[trigger] d[i]) != message_hash(#[trigger] d[j])
}

/// Placing a message puts it in at some position.
proof fn lemma_place_insert(list: Seq<DiffMessageView>, m: DiffMessageView) -> (p: int)
    ensures
        0 <= p <= list.len(),
        place(list, m) == list.insert(p, m),
    decreases list.len(),
{
    if list.len() == 0 {
        assert(place(list, m) =~= list.insert(0, m));
        0
    } else if diff_key(list.last()) <= diff_key(m) {
        assert(place(list, m) =~= list.insert(list.len() as int, m));
        list.len() as int
    } else {
        let front = list.drop_last();
        let p = lemma_place_insert(front, m);
        assert(place(list, m) =~= list.insert(p, m));
        p
    }
}

/// Placing a message with a new hash keeps the hashes distinct.
proof fn lemma_place_distinct(list: Seq<DiffMessageView>, m: DiffMessageView)
    requires
        distinct(list),
        forall|i: int| 0 <= i < list.len() ==> message_hash(#[trigger] list[i]) != message_hash(m),
    ensures
        distinct(place(list, m)),
{
    let p = lemma_place_insert(list, m);
    let r = list.insert(p, m);
    assert forall|i: int, j: int| 0 <= i < j < r.len() implies message_hash(#[trigger] r[i])
        != message_hash(#[trigger] r[j]) by {
        if j < p {
            assert(r[i] == list[i] && r[j] == list[j]);
        } else if j == p {
            assert(r[i] == list[i]);
        } else if i < p {
            assert(r[i] == list[i] && r[j] == list[j - 1]);
        } else if i == p {
            assert(r[j] == list[j - 1]);
        } else {
            assert(r[i] == list[i - 1] && r[j] == list[j - 1]);
        }
    }
}

/// The proposals that are placed have distinct hashes.
proof fn lemma_proposals_distinct(
    start: Seq<DiffMessageView>,
    s: Seq<(HashVal, ProposalView)>,
    theirs: Seq<(HashVal, HashVal)>,
)
    requires
        by_tick(start),
        distinct(start),
        sorted(s),
        forall|i: int| 0 <= i < s.len() ==> (#[trigger] s[i]).0 == s[i].1.chash(),
        forall|i: int, j: int|
            0 <= i < start.len() && 0 <= j < s.len() ==> message_hash(#[trigger] start[i]) != (
            #[trigger] s[j]).0,
    ensures
        distinct(place_proposals(start, s, theirs)),
    decreases s.len(),
{
    if s.len() > 0 {
        let front = s.drop_last();
        let q = place_proposals(start, front, theirs);
        let last = s.len() - 1;
        assert(sorted(front)) by {
            assert forall|i: int, j: int| 0 <= i < j < front.len() implies (#[trigger] front[i]).0.lt(
                (#[trigger] front[j]).0,
            ) by {
                assert(s[i].0.lt(s[j].0));
            }
        }
        assert forall|i: int, j: int|
            0 <= i < start.len() && 0 <= j < front.len() implies message_hash(#[trigger] start[i])
            != (#[trigger] front[j]).0 by {
            assert(message_hash(start[i]) != s[j].0);
        }
        assert forall|i: int| 0 <= i < front.len() implies (#[trigger] front[i]).0
            == front[i].1.chash() by {
            assert(s[i].0 == s[i].1.chash());
        }
        lemma_proposals_distinct(start, front, theirs);
        if !has_key(theirs, s.last().0) {
            let m = DiffMessageView::Proposal(s.last().1);
            lemma_place_proposals(start, front, theirs);
            assert forall|i: int| 0 <= i < q.len() implies message_hash(#[trigger] q[i])
                != message_hash(m) by {
                assert(q.contains(q[i]));
                if start.contains(q[i]) {
                    let k = choose|k: int| 0 <= k < start.len() && start[k] == q[i];
                    assert(message_hash(start[k]) != s[last].0);
                } else {
                    let k = choose|k: int|
                        0 <= k < front.len() && !has_key(theirs, (#[trigger] front[k]).0) && q[i]
                            == DiffMessageView::Proposal(front[k].1);
                    assert(s[k].0 == s[k].1.chash());
                    assert(s[k].0.lt(s[last].0));
                }
            }
            lemma_place_distinct(q, m);
        }
    }
}

/// The solicits that are placed have distinct hashes.
proof fn lemma_solicits_distinct(
    start: Seq<DiffMessageView>,
    s: Seq<(HashVal, SolicitView)>,
    theirs: Seq<(HashVal, HashVal)>,
)
    requires
        by_tick(start),
        distinct(start),
        sorted(s),
        forall|i: int| 0 <= i < s.len() ==> (#[trigger] s[i]).0 == s[i].1.chash(),
        forall|i: int, j: int|
            0 <= i < start.len() && 0 <= j < s.len() ==> message_hash(#[trigger] start[i]) != (
            #[trigger] s[j]).0,
    ensures
        distinct(place_solicits(start, s, theirs)),
    decreases s.len(),
{
    if s.len() > 0 {
        let front = s.drop_last();
        let q = place_solicits(start, front, theirs);
        let last = s.len() - 1;
        assert(sorted(front)) by {
            assert forall|i: int, j: int| 0 <= i < j < front.len() implies (#[trigger] front[i]).0.lt(
                (#[trigger] front[j]).0,
            ) by {
                assert(s[i].0.lt(s[j].0));
            }
        }
        assert forall|i: int, j: int|
            0 <= i < start.len() && 0 <= j < front.len() implies message_hash(#[trigger] start[i])
            != (#[trigger] front[j]).0 by {
            assert(message_hash(start[i]) != s[j].0);
        }
        assert forall|i: int| 0 <= i < front.len() implies (#[trigger] front[i]).0
            == front[i].1.chash() by {
            assert(s[i].0 == s[i].1.chash());
        }
        lemma_solicits_distinct(start, front, theirs);
        if !has_key(theirs, s.last().0) {
            let m = DiffMessageView::Solicit(s.last().1);
            lemma_place_solicits(start, front, theirs);
            assert forall|i: int| 0 <= i < q.len() implies message_hash(#[trigger] q[i])
                != message_hash(m) by {
                assert(q.contains(q[i]));
                if start.contains(q[i]) {
                    let k = choose|k: int| 0 <= k < start.len() && start[k] == q[i];
                    assert(message_hash(start[k]) != s[last].0);
                } else {
                    let k = choose|k: int|
                        0 <= k < front.len() && !has_key(theirs, (#[trigger] front[k]).0) && q[i]
                            == DiffMessageView::Solicit(front[k].1);
                    assert(s[k].0 == s[k].1.chash());
                    assert(s[k].0.lt(s[last].0));
                }
            }
            lemma_place_distinct(q, m);
        }
    }
}

/// The votes that are news have distinct hashes.
proof fn lemma_votes_distinct(a: CoreView, n: int, theirs: Seq<(HashVal, HashVal)>)
    requires
        a.inv(),
        0 <= n <= a.votes.len(),
    ensures
        distinct(news_votes(a.votes, n, theirs)),
    decreases n,
{
    if n > 0 {
        let q = news_votes(a.votes, n - 1, theirs);
        lemma_votes_distinct(a, n - 1, theirs);
        lemma_news_votes(a.votes, n - 1, theirs);
        lemma_keyed_by_hash(a);
        lemma_inv_sorted(a);
        if peer_differs(a.votes, theirs, a.votes[n - 1].1.voting_for) {
            let r = q.push(DiffMessageView::Vote(a.votes[n - 1].1));
            assert forall|i: int, j: int| 0 <= i < j < r.len() implies message_hash(#[trigger] r[i])
                != message_hash(#[trigger] r[j]) by {
                if j < q.len() {
                    assert(message_hash(q[i]) != message_hash(q[j]));
                } else {
                    assert(q.contains(q[i]));
                    let k = choose|k: int|
                        0 <= k < n - 1 && peer_differs(
                            a.votes,
                            theirs,
                            (#[trigger] a.votes[k]).1.voting_for,
                        ) && q[i] == DiffMessageView::Vote(a.votes[k].1);
                    assert(a.votes[k].0.lt(a.votes[n - 1].0));
                }
            }
        }
    }
}

/// A diff holds no message twice.
pub proof fn law_diff_without_repeats(c: CoreView, theirs: Seq<(HashVal, HashVal)>)
    requires
        c.inv(),
    ensures
        c.diff(theirs).no_duplicates(),
{
    let nodes = diff_nodes(c, theirs);
    let votes = news_votes(c.votes, c.votes.len() as int, theirs);
    let d = c.diff(theirs);
    lemma_node_list(c, theirs);
    lemma_votes_distinct(c, c.votes.len() as int, theirs);
    lemma_news_votes(c.votes, c.votes.len() as int, theirs);
    assert forall|i: int, j: int| 0 <= i < d.len() && 0 <= j < d.len() && i != j implies d[i]
        != d[j] by {
        let (lo, hi) = if i < j {
            (i, j)
        } else {
            (j, i)
        };
        if hi < nodes.len() {
            assert(message_hash(nodes[lo]) != message_hash(nodes[hi]));
        } else if lo >= nodes.len() {
            assert(message_hash(votes[lo - nodes.len()]) != message_hash(votes[hi - nodes.len()]));
        } else {
            assert(!(nodes[lo] is Vote));
            assert(votes[hi - nodes.len()] is Vote);
        }
    }
}

/// What holds of the proposals and solicits of a diff: they stand in tick
/// order, each is owed, each missing node is among them, and no hash comes
/// twice.
spec fn node_list_ok(a: CoreView, theirs: Seq<(HashVal, HashVal)>, d: Seq<DiffMessageView>) -> bool {
    &&& by_tick(d)
    &&& distinct(d)
    &&& forall|k: int| 0 <= k < d.len() ==> a.owes(theirs, #[trigger] d[k]) && !(d[k] is Vote)
    &&& forall|h: HashVal| #[trigger]
        a.is_node(h) && !has_key(theirs, h) ==> exists|k: int|
            0 <= k < d.len() && message_hash(#[trigger] d[k]) == h
}

/// The proposals and solicits of a diff are such a list.
proof fn lemma_node_list(a: CoreView, theirs: Seq<(HashVal, HashVal)>)
    requires
        a.inv(),
    ensures
        node_list_ok(a, theirs, diff_nodes(a, theirs)),
{
    let roots = place_proposals(Seq::empty(), a.proposals, theirs);
    let d = diff_nodes(a, theirs);
    let votes = news_votes(a.votes, a.votes.len() as int, theirs);
    lemma_place_proposals(Seq::empty(), a.proposals, theirs);
    lemma_place_solicits(roots, a.solicits, theirs);
    lemma_news_votes(a.votes, a.votes.len() as int, theirs);
    lemma_keyed_by_hash(a);
    lemma_inv_sorted(a);
    lemma_proposals_distinct(Seq::empty(), a.proposals, theirs);
    assert forall|i: int, j: int|
        0 <= i < roots.len() && 0 <= j < a.solicits.len() implies message_hash(#[trigger] roots[i])
        != (#[trigger] a.solicits[j]).0 by {
        assert(roots.contains(roots[i]));
        let k = choose|k: int|
            0 <= k < a.proposals.len() && !has_key(theirs, (#[trigger] a.proposals[k]).0) && roots[i]
                == DiffMessageView::Proposal(a.proposals[k].1);
        lemma_index_unique(a.proposals, a.proposals[k].0, k);
        lemma_index_unique(a.solicits, a.solicits[j].0, j);
        law_nodes_disjoint(a, a.solicits[j].0);
    }
    lemma_solicits_distinct(roots, a.solicits, theirs);
    assert forall|k: int| 0 <= k < d.len() implies a.owes(theirs, #[trigger] d[k]) && !(d[k]
        is Vote) by {
        assert(d.contains(d[k]));
        assert(a.diff(theirs)[k] == d[k]);
        assert(a.diff(theirs).contains(d[k]));
        law_diff_contents(a, theirs, d[k]);
        if roots.contains(d[k]) {
        }
    }
    assert forall|h: HashVal| #[trigger] a.is_node(h) && !has_key(theirs, h) implies exists|k: int|
        0 <= k < d.len() && message_hash(#[trigger] d[k]) == h by {
        if has_key(a.solicits, h) {
            let i = index_of(a.solicits, h);
            assert(a.solicits[i].0 == h);
            let m = DiffMessageView::Solicit(a.solicits[i].1);
            assert(!has_key(theirs, a.solicits[i].0));
            assert(d.contains(m));
            let k = choose|k: int| 0 <= k < d.len() && d[k] == m;
            assert(message_hash(d[k]) == h);
        } else {
            let i = index_of(a.proposals, h);
            assert(a.proposals[i].0 == h);
            let m = DiffMessageView::Proposal(a.proposals[i].1);
            assert(!has_key(theirs, a.proposals[i].0));
            assert(roots.contains(m));
            assert(d.contains(m));
            let k = choose|k: int| 0 <= k < d.len() && d[k] == m;
            assert(message_hash(d[k]) == h);
        }
    }
}

/// The hashes of the first `k` messages of `d`.
spec fn hashes(d: Seq<DiffMessageView>, k: int) -> Set<HashVal> {
    Set::new(|h: HashVal| exists|j: int| 0 <= j < k && message_hash(#[trigger] d[j]) == h)
}

/// The tick by which a stored node is ordered in a diff is its own.
proof fn lemma_owed_node(a: CoreView, theirs: Seq<(HashVal, HashVal)>, m: DiffMessageView)
    requires
        a.inv(),
        a.owes(theirs, m),
        !(m is Vote),
    ensures
        a.is_node(message_hash(m)),
        !has_key(theirs, message_hash(m)),
        diff_key(m) == a.node_tick(message_hash(m)),
        m is Proposal ==> has_key(a.proposals, message_hash(m)) && m->Proposal_0 == value_of(
            a.proposals,
            message_hash(m),
        ),
        m is Solicit ==> has_key(a.solicits, message_hash(m)) && m->Solicit_0 == value_of(
            a.solicits,
            message_hash(m),
        ),
{
    law_nodes_disjoint(a, message_hash(m));
}

/// Offering the first `k` proposals and solicits of a diff to the peer
/// admits each of them.
proof fn lemma_offer_nodes(
    a: CoreView,
    b: CoreView,
    theirs: Seq<(HashVal, HashVal)>,
    d: Seq<DiffMessageView>,
    k: int,
)
    requires
        a.inv(),
        b.inv(),
        agree(a, b),
        no_cross_equivocation(a, b),
        within_horizon(a, b),
        b.is_summary(theirs),
        node_list_ok(a, theirs, d),
        0 <= k <= d.len(),
    ensures
        grown(a, b, hashes(d, k), b.offer_all(d.take(k))),
    decreases k,
{
    if k == 0 {
        assert(d.take(0) =~= Seq::empty());
        assert(hashes(d, 0) =~= Set::empty());
        assert(b.offer_all(d.take(0)) == b);
        assert(grown(a, b, hashes(d, 0), b)) by {
            reveal(CoreView::inv);
        }
    } else {
        let x = hashes(d, k - 1);
        let c = b.offer_all(d.take(k - 1));
        lemma_offer_nodes(a, b, theirs, d, k - 1);
        let m = d[k - 1];
        let h = message_hash(m);
        assert(d.take(k).drop_last() =~= d.take(k - 1));
        assert(d.take(k).last() == m);
        assert(b.offer_all(d.take(k)) == c.offer(m));
        lemma_owed_node(a, theirs, m);
        assert(!b.is_node(h));
        assert(!x.contains(h)) by {
            if x.contains(h) {
                let j = choose|j: int| 0 <= j < k - 1 && message_hash(#[trigger] d[j]) == h;
                assert(message_hash(d[j]) != message_hash(d[k - 1]));
            }
        }
        assert(hashes(d, k) =~= x.insert(h)) by {
            assert forall|q: HashVal| hashes(d, k).contains(q) <==> x.insert(h).contains(q) by {
                if hashes(d, k).contains(q) {
                    let j = choose|j: int| 0 <= j < k && message_hash(#[trigger] d[j]) == q;
                    if j < k - 1 {
                        assert(x.contains(q));
                    }
                }
                if x.contains(q) {
                    let j = choose|j: int| 0 <= j < k - 1 && message_hash(#[trigger] d[j]) == q;
                    assert(0 <= j < k && message_hash(d[j]) == q);
                }
                if q == h {
                    assert(message_hash(d[k - 1]) == q);
                }
            }
        }
        match m {
            DiffMessageView::Proposal(p) => {
                lemma_grow_proposal(a, b, x, c, h);
            },
            DiffMessageView::Solicit(s) => {
                let prev = s.previous;
                assert(a.is_node(prev) && a.node_tick(prev) < s.tick) by {
                    law_parent_exists(a, h);
                    law_monotonic_tick(a, h);
                }
                if !b.is_node(prev) {
                    assert(!has_key(theirs, prev));
                    let j = choose|j: int| 0 <= j < d.len() && message_hash(#[trigger] d[j]) == prev;
                    lemma_owed_node(a, theirs, d[j]);
                    assert(diff_key(d[j]) < diff_key(d[k - 1]));
                    if j > k - 1 {
                        assert(diff_key(d[k - 1]) <= diff_key(d[j]));
                    }
                    assert(j < k - 1);
                    assert(x.contains(prev));
                }
                lemma_grow_solicit(a, b, x, c, h);
            },
            DiffMessageView::Vote(v) => {},
        }
    }
}

/// `c` is the grown state `c0` with those votes of `a` added whose hashes are
/// in `y`.
spec fn voted(a: CoreView, b: CoreView, c0: CoreView, y: Set<HashVal>, c: CoreView) -> bool {
    &&& c.inv()
    &&& c.proposals == c0.proposals
    &&& c.solicits == c0.solicits
    &&& c.nonce == b.nonce
    &&& forall|v: HashVal| #[trigger] y.contains(v) ==> has_key(a.votes, v)
    &&& forall|v: HashVal| #[trigger] has_key(c.votes, v) <==> has_key(b.votes, v) || y.contains(v)
    &&& forall|v: HashVal| #[trigger]
        has_key(c.votes, v) ==> value_of(c.votes, v) == (if has_key(a.votes, v) {
            value_of(a.votes, v)
        } else {
            value_of(b.votes, v)
        })
}

/// The hashes of those of the first `n` votes of `a` that are news to a peer
/// with the summary `theirs`.
spec fn sent_votes(a: CoreView, theirs: Seq<(HashVal, HashVal)>, n: int) -> Set<HashVal> {
    Set::new(
        |v: HashVal|
            exists|i: int|
                0 <= i < n && (#[trigger] a.votes[i]).0 == v && peer_differs(
                    a.votes,
                    theirs,
                    a.votes[i].1.voting_for,
                ),
    )
}

/// Offering the votes of a diff to a peer that has every node of `a` admits
/// each of them.
proof fn lemma_offer_votes(
    a: CoreView,
    b: CoreView,
    c0: CoreView,
    theirs: Seq<(HashVal, HashVal)>,
    n: int,
)
    requires
        a.inv(),
        b.inv(),
        agree(a, b),
        c0.inv(),
        c0.votes == b.votes,
        c0.nonce == b.nonce,
        forall|h: HashVal| a.is_node(h) ==> c0.is_node(h),
        0 <= n <= a.votes.len(),
    ensures
        voted(a, b, c0, sent_votes(a, theirs, n), c0.offer_all(news_votes(a.votes, n, theirs))),
    decreases n,
{
    if n == 0 {
        assert(sent_votes(a, theirs, 0) =~= Set::empty());
        assert(c0.offer_all(news_votes(a.votes, 0, theirs)) == c0);
    } else {
        let y = sent_votes(a, theirs, n - 1);
        let w = news_votes(a.votes, n - 1, theirs);
        let c = c0.offer_all(w);
        lemma_offer_votes(a, b, c0, theirs, n - 1);
        let hv = a.votes[n - 1].0;
        let v = a.votes[n - 1].1;
        lemma_keyed_by_hash(a);
        lemma_inv_sorted(a);
        lemma_index_unique(a.votes, hv, n - 1);
        if peer_differs(a.votes, theirs, v.voting_for) {
            let m = DiffMessageView::Vote(v);
            assert(w.push(m).drop_last() =~= w);
            assert(c0.offer_all(news_votes(a.votes, n, theirs)) == c.offer(m));
            assert(v.nonce == a.nonce && v.signed() && a.is_node(v.voting_for)) by {
                reveal(CoreView::inv);
                assert(a.vote_sound(hv));
            }
            assert(c.is_node(v.voting_for)) by {
                assert(c0.is_node(v.voting_for));
            }
            assert(c.vote_verdict(v) is None);
            lemma_with_vote(c, v);
            assert(sorted(c.votes)) by {
                reveal(CoreView::inv);
            }
            lemma_put_all(c.votes, hv, v);
            let d = c.with_vote(v);
            assert(sent_votes(a, theirs, n) =~= y.insert(hv)) by {
                assert forall|q: HashVal| sent_votes(a, theirs, n).contains(q) <==> y.insert(
                    hv,
                ).contains(q) by {
                    if sent_votes(a, theirs, n).contains(q) {
                        let i = choose|i: int|
                            0 <= i < n && (#[trigger] a.votes[i]).0 == q && peer_differs(
                                a.votes,
                                theirs,
                                a.votes[i].1.voting_for,
                            );
                        if i < n - 1 {
                            assert(y.contains(q));
                        }
                    }
                    if y.contains(q) {
                        let i = choose|i: int|
                            0 <= i < n - 1 && (#[trigger] a.votes[i]).0 == q && peer_differs(
                                a.votes,
                                theirs,
                                a.votes[i].1.voting_for,
                            );
                        assert(0 <= i < n && a.votes[i].0 == q);
                    }
                    if q == hv {
                        assert(a.votes[n - 1].0 == q);
                    }
                }
            }
            assert(voted(a, b, c0, y.insert(hv), d));
        } else {
            assert(sent_votes(a, theirs, n) =~= y) by {
                assert forall|q: HashVal| sent_votes(a, theirs, n).contains(q) <==> y.contains(
                    q,
                ) by {
                    if sent_votes(a, theirs, n).contains(q) {
                        let i = choose|i: int|
                            0 <= i < n && (#[trigger] a.votes[i]).0 == q && peer_differs(
                                a.votes,
                                theirs,
                                a.votes[i].1.voting_for,
                            );
                        assert(i < n - 1);
                    }
                    if y.contains(q) {
                        let i = choose|i: int|
                            0 <= i < n - 1 && (#[trigger] a.votes[i]).0 == q && peer_differs(
                                a.votes,
                                theirs,
                                a.votes[i].1.voting_for,
                            );
                        assert(0 <= i < n && a.votes[i].0 == q);
                    }
                }
            }
        }
    }
}

/// Offering one list and then another is offering the two joined.
pub proof fn lemma_offer_joined(c: CoreView, first: Seq<DiffMessageView>, second: Seq<DiffMessageView>)
    ensures
        c.offer_all(first + second) == c.offer_all(first).offer_all(second),
    decreases second.len(),
{
    if second.len() == 0 {
        assert(first + second =~= first);
    } else {
        lemma_offer_joined(c, first, second.drop_last());
        assert((first + second).drop_last() =~= first + second.drop_last());
        assert((first + second).last() == second.last());
    }
}

/// A diff brings a peer up to the union of the two states. Let `a` and `b`
/// be sound states of one instance that hold the same message wherever they
/// know the same hash, let no node of `a` lie beyond the ceiling of `b` or
/// share its tick and author with another node of `b`, and let equal
/// fingerprints mean equal votes. Then offering to `b`, from front to back,
/// the diff of `a` against the summary of `b` admits every message of it,
/// and the state that results holds exactly the messages of `a` and of `b`.
pub proof fn law_diff_reconciles(a: CoreView, b: CoreView, theirs: Seq<(HashVal, HashVal)>)
    requires
        a.inv(),
        b.inv(),
        b.is_summary(theirs),
        agree(a, b),
        no_cross_equivocation(a, b),
        within_horizon(a, b),
        fingerprints_tell(a, b),
    ensures
        b.offer_all(a.diff(theirs)).inv(),
        is_union(b.offer_all(a.diff(theirs)), a, b),
        forall|h: HashVal|
            b.offer_all(a.diff(theirs)).is_node(h) <==> a.is_node(h) || b.is_node(h),
{
    let nodes = diff_nodes(a, theirs);
    let votes = news_votes(a.votes, a.votes.len() as int, theirs);
    let x = hashes(nodes, nodes.len() as int);
    let c0 = b.offer_all(nodes);
    let y = sent_votes(a, theirs, a.votes.len() as int);
    let u = c0.offer_all(votes);
    lemma_node_list(a, theirs);
    lemma_offer_nodes(a, b, theirs, nodes, nodes.len() as int);
    assert(nodes.take(nodes.len() as int) =~= nodes);
    assert(grown(a, b, x, c0));
    assert forall|h: HashVal| a.is_node(h) implies c0.is_node(h) by {
        lemma_grown_node(a, b, x, c0, h);
        if !b.is_node(h) {
            assert(!has_key(theirs, h));
            let k = choose|k: int| 0 <= k < nodes.len() && message_hash(#[trigger] nodes[k]) == h;
            assert(x.contains(h));
        }
    }
    lemma_offer_votes(a, b, c0, theirs, a.votes.len() as int);
    lemma_offer_joined(b, nodes, votes);
    assert(u == b.offer_all(a.diff(theirs)));
    assert(voted(a, b, c0, y, u));
    assert(sorted(u.proposals) && sorted(u.solicits) && sorted(u.votes)) by {
        lemma_inv_sorted(u);
    }
    assert forall|h: HashVal| #[trigger] has_key(u.proposals, h) <==> has_key(a.proposals, h)
        || has_key(b.proposals, h) by {
        lemma_grown_node(a, b, x, c0, h);
        if has_key(a.proposals, h) && !has_key(b.proposals, h) {
            assert(a.is_node(h) && c0.is_node(h));
            law_nodes_disjoint(a, h);
        }
    }
    assert forall|h: HashVal| #[trigger] has_key(u.solicits, h) <==> has_key(a.solicits, h)
        || has_key(b.solicits, h) by {
        lemma_grown_node(a, b, x, c0, h);
        if has_key(a.solicits, h) && !has_key(b.solicits, h) {
            assert(a.is_node(h) && c0.is_node(h));
            law_nodes_disjoint(a, h);
        }
    }
    assert forall|v: HashVal| #[trigger] has_key(u.votes, v) <==> has_key(a.votes, v) || has_key(
        b.votes,
        v,
    ) by {
        if has_key(a.votes, v) && !has_key(b.votes, v) {
            let i = index_of(a.votes, v);
            assert(a.votes[i].0 == v);
            let t = a.votes[i].1.voting_for;
            if !peer_differs(a.votes, theirs, t) {
                assert(has_key(theirs, t));
                assert(b.is_node(t));
            }
            assert(y.contains(v));
        }
    }
    assert forall|h: HashVal| u.is_node(h) <==> a.is_node(h) || b.is_node(h) by {}
}

/// A peer that knew nothing that `a` does not know holds, after the diff,
/// the messages of `a`; and where the weights are the same, it finds
/// notarized what `a` finds notarized, and has decided what `a` has decided.
pub proof fn law_diff_catches_up(a: CoreView, b: CoreView, theirs: Seq<(HashVal, HashVal)>)
    requires
        a.inv(),
        b.inv(),
        b.is_summary(theirs),
        agree(a, b),
        no_cross_equivocation(a, b),
        within_horizon(a, b),
        fingerprints_tell(a, b),
        a.weights == b.weights,
        forall|h: HashVal| has_key(b.proposals, h) ==> has_key(a.proposals, h),
        forall|h: HashVal| has_key(b.solicits, h) ==> has_key(a.solicits, h),
        forall|h: HashVal| has_key(b.votes, h) ==> has_key(a.votes, h),
    ensures
        b.offer_all(a.diff(theirs)).proposals == a.proposals,
        b.offer_all(a.diff(theirs)).solicits == a.solicits,
        b.offer_all(a.diff(theirs)).votes == a.votes,
        b.offer_all(a.diff(theirs)).decision() == a.decision(),
        forall|h: HashVal| b.offer_all(a.diff(theirs)).is_tip(h) == a.is_tip(h),
        forall|m: Seq<(HashVal, HashVal)>| b.offer_all(a.diff(theirs)).is_summary(m) == a.is_summary(m),
{
    let u = b.offer_all(a.diff(theirs));
    law_diff_reconciles(a, b, theirs);
    lemma_inv_sorted(a);
    lemma_same_entries(u.proposals, a.proposals);
    lemma_same_entries(u.solicits, a.solicits);
    lemma_same_entries(u.votes, a.votes);
    lemma_weights_kept(b, a.diff(theirs));
    law_same_messages_same_answers(u, a);
}

/// Offering messages leaves the weights as they are.
proof fn lemma_weights_kept(c: CoreView, d: Seq<DiffMessageView>)
    ensures
        c.offer_all(d).weights == c.weights,
        c.offer_all(d).nonce == c.nonce,
        c.offer_all(d).max_tick == c.max_tick,
    decreases d.len(),
{
    if d.len() > 0 {
        lemma_weights_kept(c, d.drop_last());
    }
}

} // verus!
