//! The state of one participant as a mathematical value, and what the
//! protocol's rules say of it.
//!
//! The three tables are strictly ascending sequences of `(hash, message)`
//! pairs. Everything the engine computes is stated here first, as a function
//! of such a state.

use crate::bytes32::{HashVal, PublicKey, SecretKey};
use crate::msg::{DiffMessageView, ProposalView, SolicitView, VoteView};
use crate::ordered_map::{has_key, lemma_index_unique, lemma_put_all, put, sorted, value_of};
use vstd::prelude::*;

verus! {

/// Why a message was not admitted.
#[derive(Clone, Copy, Debug, PartialEq, Eq, Structural)]
pub enum InsertError {
    /// The signature is not the author's over the canonical hash.
    BadSignature,
    /// The message belongs to another instance.
    BadNonce,
    /// The author has already sent a proposal or solicit for this tick, or
    /// the message's hash already names another proposal or solicit.
    Equivocation,
    /// The solicit extends nothing that is known.
    DanglingParent,
    /// The vote endorses nothing that is known.
    DanglingTarget,
    /// The solicit's tick does not exceed its parent's.
    NonMonotonicTick,
    /// The tick lies beyond the ceiling that the driver has set.
    TickBeyondHorizon,
}

/// The state of one participant.
pub struct CoreView {
    /// The admitted proposals, by canonical hash.
    pub proposals: Seq<(HashVal, ProposalView)>,
    /// The admitted solicits, by canonical hash.
    pub solicits: Seq<(HashVal, SolicitView)>,
    /// The admitted votes, by canonical hash.
    pub votes: Seq<(HashVal, VoteView)>,
    /// The `(tick, source)` pairs of the proposals and solicits seen so far.
    pub seen: Set<(u64, PublicKey)>,
    /// The instance that this state belongs to.
    pub nonce: u128,
    /// The vote weight of each participant.
    pub weights: Seq<(PublicKey, u64)>,
    /// The highest tick that a proposal or solicit may carry.
    pub max_tick: u64,
}

/// The weight that `weights` gives to `who`: 0 to a stranger.
pub open spec fn weight_of(weights: Seq<(PublicKey, u64)>, who: PublicKey) -> nat {
    if has_key(weights, who) {
        value_of(weights, who) as nat
    } else {
        0
    }
}

/// The sum of all weights.
pub open spec fn total_weight(weights: Seq<(PublicKey, u64)>) -> nat
    decreases weights.len(),
{
    if weights.len() == 0 {
        0
    } else {
        total_weight(weights.drop_last()) + weights.last().1 as nat
    }
}

/// The summed weight of the authors of those of `votes` that endorse `h`.
pub open spec fn tally(
    votes: Seq<(HashVal, VoteView)>,
    weights: Seq<(PublicKey, u64)>,
    h: HashVal,
) -> nat
    decreases votes.len(),
{
    if votes.len() == 0 {
        0
    } else {
        tally(votes.drop_last(), weights, h) + if votes.last().1.voting_for == h {
            weight_of(weights, votes.last().1.source)
        } else {
            0
        }
    }
}

/// The exclusive or of the hashes of those of `votes` that endorse `h`.
pub open spec fn fingerprint(votes: Seq<(HashVal, VoteView)>, h: HashVal) -> HashVal
    decreases votes.len(),
{
    if votes.len() == 0 {
        HashVal::zero()
    } else if votes.last().1.voting_for == h {
        fingerprint(votes.drop_last(), h).xor_spec(votes.last().0)
    } else {
        fingerprint(votes.drop_last(), h)
    }
}

/// The tick by which a diff is ordered: a vote counts as the last tick.
pub open spec fn diff_key(m: DiffMessageView) -> u64 {
    match m {
        DiffMessageView::Proposal(p) => p.tick,
        DiffMessageView::Solicit(s) => s.tick,
        DiffMessageView::Vote(_) => u64::MAX,
    }
}

/// The author of a message.
pub open spec fn message_source(m: DiffMessageView) -> PublicKey {
    match m {
        DiffMessageView::Proposal(p) => p.source,
        DiffMessageView::Solicit(s) => s.source,
        DiffMessageView::Vote(v) => v.source,
    }
}

/// The messages of `list` stand in ascending order of their ticks.
pub open spec fn by_tick(list: Seq<DiffMessageView>) -> bool {
    forall|i: int, j: int|
        0 <= i < j < list.len() ==> diff_key(#[trigger] list[i]) <= diff_key(#[trigger] list[j])
}

/// `list` with `m` put behind the last message whose tick is not above its
/// own.
pub open spec fn place(list: Seq<DiffMessageView>, m: DiffMessageView) -> Seq<DiffMessageView>
    decreases list.len(),
{
    if list.len() == 0 {
        seq![m]
    } else if diff_key(list.last()) <= diff_key(m) {
        list.push(m)
    } else {
        place(list.drop_last(), m).push(list.last())
    }
}

/// `start`, with each proposal of `s` that `theirs` does not know put in by
/// its tick.
pub open spec fn place_proposals(
    start: Seq<DiffMessageView>,
    s: Seq<(HashVal, ProposalView)>,
    theirs: Seq<(HashVal, HashVal)>,
) -> Seq<DiffMessageView>
    decreases s.len(),
{
    if s.len() == 0 {
        start
    } else if has_key(theirs, s.last().0) {
        place_proposals(start, s.drop_last(), theirs)
    } else {
        place(place_proposals(start, s.drop_last(), theirs), DiffMessageView::Proposal(s.last().1))
    }
}

/// `start`, with each solicit of `s` that `theirs` does not know put in by
/// its tick.
pub open spec fn place_solicits(
    start: Seq<DiffMessageView>,
    s: Seq<(HashVal, SolicitView)>,
    theirs: Seq<(HashVal, HashVal)>,
) -> Seq<DiffMessageView>
    decreases s.len(),
{
    if s.len() == 0 {
        start
    } else if has_key(theirs, s.last().0) {
        place_solicits(start, s.drop_last(), theirs)
    } else {
        place(place_solicits(start, s.drop_last(), theirs), DiffMessageView::Solicit(s.last().1))
    }
}

/// What `theirs` holds for `h` is not the fingerprint of `votes` for `h`.
pub open spec fn peer_differs(
    votes: Seq<(HashVal, VoteView)>,
    theirs: Seq<(HashVal, HashVal)>,
    h: HashVal,
) -> bool {
    !has_key(theirs, h) || value_of(theirs, h) != fingerprint(votes, h)
}

/// Those of the first `n` of `votes`, in order, whose target `theirs` knows
/// otherwise than `votes` as a whole have it.
pub open spec fn news_votes(
    votes: Seq<(HashVal, VoteView)>,
    n: int,
    theirs: Seq<(HashVal, HashVal)>,
) -> Seq<DiffMessageView>
    decreases n,
{
    if n <= 0 {
        Seq::empty()
    } else if peer_differs(votes, theirs, votes[n - 1].1.voting_for) {
        news_votes(votes, n - 1, theirs).push(DiffMessageView::Vote(votes[n - 1].1))
    } else {
        news_votes(votes, n - 1, theirs)
    }
}

/// The keys of those solicits of `s`, in order, that extend a tip of `c`.
pub open spec fn extending(c: CoreView, s: Seq<(HashVal, SolicitView)>) -> Seq<HashVal>
    decreases s.len(),
{
    if s.len() == 0 {
        Seq::empty()
    } else if c.is_tip(s.last().1.previous) {
        extending(c, s.drop_last()).push(s.last().0)
    } else {
        extending(c, s.drop_last())
    }
}

/// The error of a result, if it is one.
pub open spec fn refusal<T>(r: Result<T, InsertError>) -> Option<InsertError> {
    match r {
        Ok(_) => None,
        Err(e) => Some(e),
    }
}

/// The decision that is known once the state `c` has been looked at: the
/// body that `c` decides, and else what was known `before`.
pub open spec fn known_decision(c: CoreView, before: Option<Seq<u8>>) -> Option<Seq<u8>> {
    match c.decision() {
        Some(p) => Some(p.body),
        None => before,
    }
}

/// The hashes of `s` ascend strictly.
pub open spec fn ascending(s: Seq<HashVal>) -> bool {
    forall|i: int, j: int| 0 <= i < j < s.len() ==> (#[trigger] s[i]).lt(#[trigger] s[j])
}

/// A run of three ticks, each one less than the one before it.
pub open spec fn three_in_a_row(t: Seq<u64>) -> bool {
    exists|i: int|
        0 <= i && i + 2 < t.len() && (#[trigger] t[i]) == t[i + 1] + 1 && t[i + 1] == t[i + 2] + 1
}

impl CoreView {
    /// `h` names an admitted proposal or solicit.
    pub open spec fn is_node(self, h: HashVal) -> bool {
        has_key(self.proposals, h) || has_key(self.solicits, h)
    }

    /// The tick of the node `h`.
    pub open spec fn node_tick(self, h: HashVal) -> u64 {
        if has_key(self.solicits, h) {
            value_of(self.solicits, h).tick
        } else {
            value_of(self.proposals, h).tick
        }
    }

    /// The author of the node `h`.
    pub open spec fn node_source(self, h: HashVal) -> PublicKey {
        if has_key(self.solicits, h) {
            value_of(self.solicits, h).source
        } else {
            value_of(self.proposals, h).source
        }
    }

    /// The solicit `h` has an admitted parent with a lower tick.
    pub open spec fn grows(self, h: HashVal) -> bool {
        &&& has_key(self.solicits, h)
        &&& self.is_node(value_of(self.solicits, h).previous)
        &&& self.node_tick(value_of(self.solicits, h).previous) < value_of(self.solicits, h).tick
    }

    /// What holds of the proposal stored under `h`.
    pub open spec fn proposal_sound(self, h: HashVal) -> bool {
        let p = value_of(self.proposals, h);
        &&& h == p.chash()
        &&& p.nonce == self.nonce
        &&& p.signed()
        &&& self.seen.contains((p.tick, p.source))
        &&& !has_key(self.solicits, h)
    }

    /// What holds of the solicit stored under `h`.
    pub open spec fn solicit_sound(self, h: HashVal) -> bool {
        let s = value_of(self.solicits, h);
        &&& h == s.chash()
        &&& s.nonce == self.nonce
        &&& s.signed()
        &&& self.seen.contains((s.tick, s.source))
        &&& self.grows(h)
    }

    /// What holds of the vote stored under `h`.
    pub open spec fn vote_sound(self, h: HashVal) -> bool {
        let v = value_of(self.votes, h);
        &&& h == v.chash()
        &&& v.nonce == self.nonce
        &&& v.signed()
        &&& self.is_node(v.voting_for)
    }

    /// No two nodes share a tick and an author.
    pub open spec fn no_equivocation(self) -> bool {
        forall|a: HashVal, b: HashVal|
            #![trigger self.is_node(a), self.is_node(b)]
            self.is_node(a) && self.is_node(b) && a != b ==> (self.node_tick(a), self.node_source(a))
                != (self.node_tick(b), self.node_source(b))
    }

    /// Some node has the tick `tick` and the author `source`.
    pub open spec fn written_at(self, tick: u64, source: PublicKey) -> bool {
        exists|h: HashVal|
            #[trigger] self.is_node(h) && self.node_tick(h) == tick && self.node_source(h) == source
    }

    /// Every pair seen is the tick and author of a node.
    pub open spec fn seen_of_nodes(self) -> bool {
        forall|tick: u64, source: PublicKey| #[trigger]
            self.seen.contains((tick, source)) ==> self.written_at(tick, source)
    }

    /// The invariant of every state that admission can reach.
    #[verifier::opaque]
    pub open spec fn inv(self) -> bool {
        &&& sorted(self.proposals)
        &&& sorted(self.solicits)
        &&& sorted(self.votes)
        &&& sorted(self.weights)
        &&& forall|h: HashVal| #[trigger] has_key(self.proposals, h) ==> self.proposal_sound(h)
        &&& forall|h: HashVal| #[trigger] has_key(self.solicits, h) ==> self.solicit_sound(h)
        &&& forall|h: HashVal| #[trigger] has_key(self.votes, h) ==> self.vote_sound(h)
        &&& self.no_equivocation()
        &&& self.seen_of_nodes()
    }

    /// Why the proposal `p` is refused, if it is.
    pub open spec fn proposal_verdict(self, p: ProposalView) -> Option<InsertError> {
        if p.nonce != self.nonce {
            Some(InsertError::BadNonce)
        } else if !p.signed() {
            Some(InsertError::BadSignature)
        } else if p.tick > self.max_tick {
            Some(InsertError::TickBeyondHorizon)
        } else if self.seen.contains((p.tick, p.source)) || self.is_node(p.chash()) {
            Some(InsertError::Equivocation)
        } else {
            None
        }
    }

    /// Why the solicit `s` is refused, if it is.
    pub open spec fn solicit_verdict(self, s: SolicitView) -> Option<InsertError> {
        if s.nonce != self.nonce {
            Some(InsertError::BadNonce)
        } else if !s.signed() {
            Some(InsertError::BadSignature)
        } else if !self.is_node(s.previous) {
            Some(InsertError::DanglingParent)
        } else if s.tick <= self.node_tick(s.previous) {
            Some(InsertError::NonMonotonicTick)
        } else if s.tick > self.max_tick {
            Some(InsertError::TickBeyondHorizon)
        } else if self.seen.contains((s.tick, s.source)) || self.is_node(s.chash()) {
            Some(InsertError::Equivocation)
        } else {
            None
        }
    }

    /// Why the vote `v` is refused, if it is.
    pub open spec fn vote_verdict(self, v: VoteView) -> Option<InsertError> {
        if v.nonce != self.nonce {
            Some(InsertError::BadNonce)
        } else if !v.signed() {
            Some(InsertError::BadSignature)
        } else if !self.is_node(v.voting_for) {
            Some(InsertError::DanglingTarget)
        } else {
            None
        }
    }

    /// Why the message `m` is refused, if it is.
    pub open spec fn verdict(self, m: DiffMessageView) -> Option<InsertError> {
        match m {
            DiffMessageView::Proposal(p) => self.proposal_verdict(p),
            DiffMessageView::Solicit(s) => self.solicit_verdict(s),
            DiffMessageView::Vote(v) => self.vote_verdict(v),
        }
    }

    /// The state with the proposal `p` admitted.
    pub open spec fn with_proposal(self, p: ProposalView) -> CoreView {
        CoreView {
            proposals: put(self.proposals, p.chash(), p),
            seen: self.seen.insert((p.tick, p.source)),
            ..self
        }
    }

    /// The state with the solicit `s` admitted.
    pub open spec fn with_solicit(self, s: SolicitView) -> CoreView {
        CoreView {
            solicits: put(self.solicits, s.chash(), s),
            seen: self.seen.insert((s.tick, s.source)),
            ..self
        }
    }

    /// The state with the vote `v` admitted.
    pub open spec fn with_vote(self, v: VoteView) -> CoreView {
        CoreView { votes: put(self.votes, v.chash(), v), ..self }
    }

    /// The state after the proposal `p` was offered.
    pub open spec fn offer_proposal(self, p: ProposalView) -> CoreView {
        if self.proposal_verdict(p) is None {
            self.with_proposal(p)
        } else {
            self
        }
    }

    /// The state after the solicit `s` was offered.
    pub open spec fn offer_solicit(self, s: SolicitView) -> CoreView {
        if self.solicit_verdict(s) is None {
            self.with_solicit(s)
        } else {
            self
        }
    }

    /// The state after the vote `v` was offered.
    pub open spec fn offer_vote(self, v: VoteView) -> CoreView {
        if self.vote_verdict(v) is None {
            self.with_vote(v)
        } else {
            self
        }
    }

    /// The state after the message `m` was offered.
    pub open spec fn offer(self, m: DiffMessageView) -> CoreView {
        match m {
            DiffMessageView::Proposal(p) => self.offer_proposal(p),
            DiffMessageView::Solicit(s) => self.offer_solicit(s),
            DiffMessageView::Vote(v) => self.offer_vote(v),
        }
    }

    /// The state after the messages of `d` were offered, from front to back.
    pub open spec fn offer_all(self, d: Seq<DiffMessageView>) -> CoreView
        decreases d.len(),
    {
        if d.len() == 0 {
            self
        } else {
            self.offer_all(d.drop_last()).offer(d.last())
        }
    }

    /// The summed weight of the votes for `h` exceeds two thirds of all
    /// weight (the two thirds rounded down).
    pub open spec fn notarized(self, h: HashVal) -> bool {
        tally(self.votes, self.weights, h) > 2 * total_weight(self.weights) / 3
    }

    /// The number of solicits between `h` and the proposal at its root.
    pub open spec fn chain_len(self, h: HashVal) -> nat
        decreases self.node_tick(h),
    {
        if self.grows(h) {
            self.chain_len(value_of(self.solicits, h).previous) + 1
        } else {
            0
        }
    }

    /// The ticks met on the way from `h` back to the proposal at its root,
    /// those of `h` and of the proposal included.
    pub open spec fn tick_path(self, h: HashVal) -> Seq<u64>
        decreases self.node_tick(h),
    {
        if self.grows(h) {
            seq![self.node_tick(h)] + self.tick_path(value_of(self.solicits, h).previous)
        } else if self.is_node(h) {
            seq![self.node_tick(h)]
        } else {
            Seq::empty()
        }
    }

    /// The hash at the root of the chain that ends in `h`.
    pub open spec fn root_of(self, h: HashVal) -> HashVal
        decreases self.node_tick(h),
    {
        if self.grows(h) {
            self.root_of(value_of(self.solicits, h).previous)
        } else {
            h
        }
    }

    /// `h` is a notarized node.
    pub open spec fn candidate(self, h: HashVal) -> bool {
        self.is_node(h) && self.notarized(h)
    }

    /// `h` ends a longest notarized chain: it is a notarized node, and no
    /// notarized node lies further from its root.
    pub open spec fn is_tip(self, h: HashVal) -> bool {
        &&& self.candidate(h)
        &&& forall|g: HashVal| #[trigger] self.candidate(g) ==> self.chain_len(g) <= self.chain_len(h)
    }

    /// Some node ends a longest notarized chain.
    pub open spec fn has_tip(self) -> bool {
        exists|h: HashVal| self.is_tip(h)
    }

    /// `h` is the least tip in hash order.
    pub open spec fn is_least_tip(self, h: HashVal) -> bool {
        &&& self.is_tip(h)
        &&& forall|g: HashVal| #[trigger] self.is_tip(g) ==> !g.lt(h)
    }

    /// The least tip in hash order.
    pub open spec fn least_tip(self) -> HashVal {
        choose|h: HashVal| self.is_least_tip(h)
    }

    /// The chain that ends in the tip `h` holds three consecutive ticks.
    pub open spec fn finalizes(self, h: HashVal) -> bool {
        self.is_tip(h) && three_in_a_row(self.tick_path(h))
    }

    /// `h` is the least, in hash order, of the tips whose chain holds three
    /// consecutive ticks.
    pub open spec fn decides(self, h: HashVal) -> bool {
        &&& self.finalizes(h)
        &&& forall|g: HashVal| #[trigger] self.finalizes(g) ==> !g.lt(h)
    }

    /// The hash of the proposal that has been decided, if one has.
    pub open spec fn decided_root(self) -> Option<HashVal> {
        if exists|h: HashVal| self.decides(h) {
            Some(self.root_of(choose|h: HashVal| self.decides(h)))
        } else {
            None
        }
    }

    /// The proposal that has been decided, if one has.
    pub open spec fn decision(self) -> Option<ProposalView> {
        match self.decided_root() {
            Some(root) => Some(value_of(self.proposals, root)),
            None => None,
        }
    }

    /// The solicit that `secret` writes when it leads `tick`: it extends the
    /// least tip.
    pub open spec fn lead_solicit(self, tick: u64, secret: SecretKey) -> SolicitView {
        SolicitView::authored(self.nonce, tick, self.least_tip(), secret)
    }

    /// The proposal with the body `body` that `secret` writes when it leads
    /// `tick`.
    pub open spec fn lead_proposal(self, tick: u64, secret: SecretKey, body: Seq<u8>) -> ProposalView {
        ProposalView::authored(self.nonce, tick, body, secret)
    }

    /// `after` and `refused` are what comes of `secret` leading `tick` with
    /// the proposal body `body` at hand: with a tip, its solicit is offered and
    /// a refusal is not reported; without one, its proposal is offered.
    pub open spec fn led(
        self,
        tick: u64,
        secret: SecretKey,
        body: Seq<u8>,
        after: CoreView,
        refused: Option<InsertError>,
    ) -> bool {
        if self.has_tip() {
            after == self.offer_solicit(self.lead_solicit(tick, secret)) && refused is None
        } else {
            after == self.offer_proposal(self.lead_proposal(tick, secret, body)) && refused
                == self.proposal_verdict(self.lead_proposal(tick, secret, body))
        }
    }

    /// `after` and `refused` are what comes of the turn of `secret` at `tick`:
    /// nothing where it does not lead, and what `led` says where it does.
    pub open spec fn took_turn(
        self,
        leads: bool,
        tick: u64,
        secret: SecretKey,
        body: Seq<u8>,
        after: CoreView,
        refused: Option<InsertError>,
    ) -> bool {
        if leads {
            self.led(tick, secret, body, after, refused)
        } else {
            after == self && refused is None
        }
    }

    /// What this participant votes for: every proposal while nothing is
    /// notarized, and otherwise every solicit that extends a tip; in hash order.
    pub open spec fn vote_targets(self) -> Seq<HashVal> {
        if self.has_tip() {
            extending(self, self.solicits)
        } else {
            Seq::new(self.proposals.len(), |i: int| self.proposals[i].0)
        }
    }

    /// The state after `secret` has signed and offered a vote for each of
    /// `targets` in turn, up to the first that is refused, and why that one
    /// was.
    pub open spec fn cast_votes(self, targets: Seq<HashVal>, secret: SecretKey) -> (
        CoreView,
        Option<InsertError>,
    )
        decreases targets.len(),
    {
        if targets.len() == 0 {
            (self, None)
        } else {
            let v = VoteView::authored(self.nonce, targets[0], secret);
            match self.vote_verdict(v) {
                Some(e) => (self, Some(e)),
                None => self.with_vote(v).cast_votes(targets.drop_first(), secret),
            }
        }
    }

    /// `m` is the fingerprint summary of this state: it has an entry for each
    /// node and no other, and holds for each the exclusive or of the hashes of
    /// the votes for it.
    pub open spec fn is_summary(self, m: Seq<(HashVal, HashVal)>) -> bool {
        &&& sorted(m)
        &&& forall|h: HashVal| #[trigger] has_key(m, h) <==> self.is_node(h)
        &&& forall|h: HashVal|
            #[trigger] self.is_node(h) ==> value_of(m, h) == fingerprint(self.votes, h)
    }

    /// `m` is owed to a peer with the summary `theirs`: it is a proposal or
    /// solicit of this state that `theirs` has no entry for, or a vote of this
    /// state for a node whose fingerprint `theirs` has not.
    pub open spec fn owes(self, theirs: Seq<(HashVal, HashVal)>, m: DiffMessageView) -> bool {
        match m {
            DiffMessageView::Proposal(p) => {
                &&& has_key(self.proposals, p.chash())
                &&& value_of(self.proposals, p.chash()) == p
                &&& !has_key(theirs, p.chash())
            },
            DiffMessageView::Solicit(s) => {
                &&& has_key(self.solicits, s.chash())
                &&& value_of(self.solicits, s.chash()) == s
                &&& !has_key(theirs, s.chash())
            },
            DiffMessageView::Vote(v) => {
                &&& has_key(self.votes, v.chash())
                &&& value_of(self.votes, v.chash()) == v
                &&& peer_differs(self.votes, theirs, v.voting_for)
            },
        }
    }

    /// What a peer with the summary `theirs` is sent: the proposals and
    /// solicits it does not know, in tick order, then the votes for every
    /// node whose fingerprint it has not.
    pub open spec fn diff(self, theirs: Seq<(HashVal, HashVal)>) -> Seq<DiffMessageView> {
        place_solicits(
            place_proposals(Seq::empty(), self.proposals, theirs),
            self.solicits,
            theirs,
        ) + news_votes(self.votes, self.votes.len() as int, theirs)
    }
}

/// Admitting a proposal that passes every check keeps the invariant.
pub proof fn lemma_with_proposal(c: CoreView, p: ProposalView)
    requires
        c.inv(),
        c.proposal_verdict(p) is None,
    ensures
        c.with_proposal(p).inv(),
        forall|h: HashVal| c.is_node(h) ==> c.with_proposal(p).is_node(h),
        forall|h: HashVal|
            c.is_node(h) ==> c.with_proposal(p).node_tick(h) == c.node_tick(h) && c.with_proposal(
                p,
            ).node_source(h) == c.node_source(h),
{
    reveal(CoreView::inv);
    let d = c.with_proposal(p);
    let k = p.chash();
    lemma_put_all(c.proposals, k, p);
    assert forall|h: HashVal| c.is_node(h) implies d.is_node(h) && d.node_tick(h) == c.node_tick(h)
        && d.node_source(h) == c.node_source(h) by {}
    assert forall|h: HashVal| #[trigger] has_key(d.proposals, h) implies d.proposal_sound(h) by {
        if h != k {
            assert(c.proposal_sound(h));
        }
    }
    assert forall|h: HashVal| #[trigger] has_key(d.solicits, h) implies d.solicit_sound(h) by {
        assert(c.solicit_sound(h));
    }
    assert forall|h: HashVal| #[trigger] has_key(d.votes, h) implies d.vote_sound(h) by {
        assert(c.vote_sound(h));
    }
    assert forall|a: HashVal, b: HashVal|
        #![trigger d.is_node(a), d.is_node(b)]
        d.is_node(a) && d.is_node(b) && a != b implies (d.node_tick(a), d.node_source(a)) != (
            d.node_tick(b),
            d.node_source(b),
        ) by {
        lemma_pair_seen(c, a);
        lemma_pair_seen(c, b);
        if a != k && b != k {
            assert(c.is_node(a) && c.is_node(b));
        }
    }
    assert forall|tick: u64, source: PublicKey| #[trigger]
        d.seen.contains((tick, source)) implies d.written_at(tick, source) by {
        if c.seen.contains((tick, source)) {
            assert(c.written_at(tick, source));
            let h = choose|h: HashVal|
                #[trigger] c.is_node(h) && c.node_tick(h) == tick && c.node_source(h) == source;
            assert(d.is_node(h) && d.node_tick(h) == tick && d.node_source(h) == source);
        } else {
            assert(d.is_node(k) && d.node_tick(k) == tick && d.node_source(k) == source);
        }
    }
}

/// The tick and author of every node are among the pairs seen.
pub proof fn lemma_pair_seen(c: CoreView, h: HashVal)
    requires
        c.inv(),
    ensures
        c.is_node(h) ==> c.seen.contains((c.node_tick(h), c.node_source(h))),
{
    reveal(CoreView::inv);
    if has_key(c.solicits, h) {
        assert(c.solicit_sound(h));
    } else if has_key(c.proposals, h) {
        assert(c.proposal_sound(h));
    }
}

/// Admitting a solicit that passes every check keeps the invariant.
pub proof fn lemma_with_solicit(c: CoreView, s: SolicitView)
    requires
        c.inv(),
        c.solicit_verdict(s) is None,
    ensures
        c.with_solicit(s).inv(),
        forall|h: HashVal| c.is_node(h) ==> c.with_solicit(s).is_node(h),
        forall|h: HashVal|
            c.is_node(h) ==> c.with_solicit(s).node_tick(h) == c.node_tick(h) && c.with_solicit(
                s,
            ).node_source(h) == c.node_source(h),
{
    reveal(CoreView::inv);
    let d = c.with_solicit(s);
    let k = s.chash();
    lemma_put_all(c.solicits, k, s);
    assert forall|h: HashVal| c.is_node(h) implies d.is_node(h) && d.node_tick(h) == c.node_tick(h)
        && d.node_source(h) == c.node_source(h) by {}
    assert forall|h: HashVal| #[trigger] has_key(d.proposals, h) implies d.proposal_sound(h) by {
        assert(c.proposal_sound(h));
    }
    assert forall|h: HashVal| #[trigger] has_key(d.solicits, h) implies d.solicit_sound(h) by {
        if h != k {
            assert(c.solicit_sound(h));
            assert(c.is_node(value_of(c.solicits, h).previous));
        } else {
            assert(c.is_node(s.previous));
        }
    }
    assert forall|h: HashVal| #[trigger] has_key(d.votes, h) implies d.vote_sound(h) by {
        assert(c.vote_sound(h));
    }
    assert forall|a: HashVal, b: HashVal|
        #![trigger d.is_node(a), d.is_node(b)]
        d.is_node(a) && d.is_node(b) && a != b implies (d.node_tick(a), d.node_source(a)) != (
            d.node_tick(b),
            d.node_source(b),
        ) by {
        lemma_pair_seen(c, a);
        lemma_pair_seen(c, b);
        if a != k && b != k {
            assert(c.is_node(a) && c.is_node(b));
        }
    }
    assert forall|tick: u64, source: PublicKey| #[trigger]
        d.seen.contains((tick, source)) implies d.written_at(tick, source) by {
        if c.seen.contains((tick, source)) {
            assert(c.written_at(tick, source));
            let h = choose|h: HashVal|
                #[trigger] c.is_node(h) && c.node_tick(h) == tick && c.node_source(h) == source;
            assert(d.is_node(h) && d.node_tick(h) == tick && d.node_source(h) == source);
        } else {
            assert(d.is_node(k) && d.node_tick(k) == tick && d.node_source(k) == source);
        }
    }
}

/// Admitting a vote that passes every check keeps the invariant.
pub proof fn lemma_with_vote(c: CoreView, v: VoteView)
    requires
        c.inv(),
        c.vote_verdict(v) is None,
    ensures
        c.with_vote(v).inv(),
{
    reveal(CoreView::inv);
    let d = c.with_vote(v);
    let k = v.chash();
    lemma_put_all(c.votes, k, v);
    assert forall|h: HashVal| #[trigger] has_key(d.votes, h) implies d.vote_sound(h) by {
        if h != k {
            assert(c.vote_sound(h));
        }
    }
    assert forall|h: HashVal| #[trigger] has_key(d.proposals, h) implies d.proposal_sound(h) by {
        assert(c.proposal_sound(h));
    }
    assert forall|h: HashVal| #[trigger] has_key(d.solicits, h) implies d.solicit_sound(h) by {
        assert(c.solicit_sound(h));
    }
    assert forall|a: HashVal, b: HashVal|
        #![trigger d.is_node(a), d.is_node(b)]
        d.is_node(a) && d.is_node(b) && a != b implies (d.node_tick(a), d.node_source(a)) != (
            d.node_tick(b),
            d.node_source(b),
        ) by {
        assert(c.is_node(a) && c.is_node(b));
    }
    assert forall|tick: u64, source: PublicKey| #[trigger]
        d.seen.contains((tick, source)) implies d.written_at(tick, source) by {
        assert(c.written_at(tick, source));
        let h = choose|h: HashVal|
            #[trigger] c.is_node(h) && c.node_tick(h) == tick && c.node_source(h) == source;
        assert(d.is_node(h) && d.node_tick(h) == tick && d.node_source(h) == source);
    }
}

/// The tables of a sound state are in order.
pub proof fn lemma_inv_sorted(c: CoreView)
    requires
        c.inv(),
    ensures
        sorted(c.proposals),
        sorted(c.solicits),
        sorted(c.votes),
        sorted(c.weights),
{
    reveal(CoreView::inv);
}

/// The empty state of an instance is sound.
pub proof fn lemma_empty_inv(c: CoreView)
    requires
        c.proposals.len() == 0,
        c.solicits.len() == 0,
        c.votes.len() == 0,
        c.seen == Set::<(u64, PublicKey)>::empty(),
        sorted(c.weights),
    ensures
        c.inv(),
{
    reveal(CoreView::inv);
}

/// A proposal has length 0, a solicit one more than its parent; and no chain
/// is longer than the tick at its end.
pub proof fn lemma_chain_len(c: CoreView, h: HashVal)
    requires
        c.inv(),
    ensures
        has_key(c.proposals, h) ==> !c.grows(h) && c.chain_len(h) == 0,
        has_key(c.solicits, h) ==> c.grows(h) && c.chain_len(h) == c.chain_len(
            value_of(c.solicits, h).previous,
        ) + 1,
        c.chain_len(h) <= c.node_tick(h),
    decreases c.node_tick(h),
{
    reveal(CoreView::inv);
    if has_key(c.proposals, h) {
        assert(c.proposal_sound(h));
    }
    if has_key(c.solicits, h) {
        assert(c.solicit_sound(h));
        lemma_chain_len(c, value_of(c.solicits, h).previous);
    }
}

/// The chain that ends in a node leads back to a proposal.
pub proof fn lemma_root(c: CoreView, h: HashVal)
    requires
        c.inv(),
        c.is_node(h),
    ensures
        has_key(c.proposals, c.root_of(h)),
        c.tick_path(h).len() == c.chain_len(h) + 1,
        c.tick_path(h)[0] == c.node_tick(h),
    decreases c.node_tick(h),
{
    reveal(CoreView::inv);
    if has_key(c.solicits, h) {
        assert(c.solicit_sound(h));
        lemma_root(c, value_of(c.solicits, h).previous);
    } else {
        assert(c.proposal_sound(h));
    }
}

/// At most one hash decides.
pub proof fn lemma_decides_unique(c: CoreView, a: HashVal, b: HashVal)
    requires
        c.decides(a),
        c.decides(b),
    ensures
        a == b,
{
    assert(c.finalizes(a) && c.finalizes(b));
    assert(!a.lt(b) && !b.lt(a));
}

/// Every vote of a sound state endorses a node.
pub proof fn lemma_vote_target(c: CoreView, i: int)
    requires
        c.inv(),
        0 <= i < c.votes.len(),
    ensures
        c.is_node(c.votes[i].1.voting_for),
{
    reveal(CoreView::inv);
    lemma_index_unique(c.votes, c.votes[i].0, i);
    assert(c.vote_sound(c.votes[i].0));
}

/// Every entry of a sound state is stored under the canonical hash of its
/// message.
pub proof fn lemma_keyed_by_hash(c: CoreView)
    requires
        c.inv(),
    ensures
        forall|i: int|
            0 <= i < c.proposals.len() ==> (#[trigger] c.proposals[i]).0 == c.proposals[i].1.chash(),
        forall|i: int|
            0 <= i < c.solicits.len() ==> (#[trigger] c.solicits[i]).0 == c.solicits[i].1.chash(),
        forall|i: int| 0 <= i < c.votes.len() ==> (#[trigger] c.votes[i]).0 == c.votes[i].1.chash(),
{
    reveal(CoreView::inv);
    assert forall|i: int| 0 <= i < c.proposals.len() implies (#[trigger] c.proposals[i]).0
        == c.proposals[i].1.chash() by {
        lemma_index_unique(c.proposals, c.proposals[i].0, i);
        assert(c.proposal_sound(c.proposals[i].0));
    }
    assert forall|i: int| 0 <= i < c.solicits.len() implies (#[trigger] c.solicits[i]).0
        == c.solicits[i].1.chash() by {
        lemma_index_unique(c.solicits, c.solicits[i].0, i);
        assert(c.solicit_sound(c.solicits[i].0));
    }
    assert forall|i: int| 0 <= i < c.votes.len() implies (#[trigger] c.votes[i]).0
        == c.votes[i].1.chash() by {
        lemma_index_unique(c.votes, c.votes[i].0, i);
        assert(c.vote_sound(c.votes[i].0));
    }
}

/// Moving the tick ceiling keeps the invariant.
pub proof fn lemma_with_max_tick(c: CoreView, tick: u64)
    requires
        c.inv(),
    ensures
        (CoreView { max_tick: tick, ..c }).inv(),
{
    reveal(CoreView::inv);
    let d = CoreView { max_tick: tick, ..c };
    assert forall|h: HashVal| #[trigger] has_key(d.proposals, h) implies d.proposal_sound(h) by {
        assert(c.proposal_sound(h));
    }
    assert forall|h: HashVal| #[trigger] has_key(d.solicits, h) implies d.solicit_sound(h) by {
        assert(c.solicit_sound(h));
    }
    assert forall|h: HashVal| #[trigger] has_key(d.votes, h) implies d.vote_sound(h) by {
        assert(c.vote_sound(h));
    }
    assert forall|a: HashVal, b: HashVal|
        #![trigger d.is_node(a), d.is_node(b)]
        d.is_node(a) && d.is_node(b) && a != b implies (d.node_tick(a), d.node_source(a)) != (
            d.node_tick(b),
            d.node_source(b),
        ) by {
        assert(c.is_node(a) && c.is_node(b));
    }
    assert forall|tick: u64, source: PublicKey| #[trigger]
        d.seen.contains((tick, source)) implies d.written_at(tick, source) by {
        assert(c.written_at(tick, source));
        let h = choose|h: HashVal|
            #[trigger] c.is_node(h) && c.node_tick(h) == tick && c.node_source(h) == source;
        assert(d.is_node(h) && d.node_tick(h) == tick && d.node_source(h) == source);
    }
}

} // verus!
