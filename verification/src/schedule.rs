//! Who leads a tick.
//!
//! The engine asks a `LeaderSchedule`. Any function from ticks to public keys
//! is one; the driver's own is the `Lottery`, which draws the leader of each
//! tick by vote weight from a hash chain that all participants can compute.

use crate::bytes32::{word_bytes, word_to_bytes, PublicKey};
use crate::crypto::{digest, hash_of};
use crate::model::total_weight;
use crate::ordered_map::OrderedMap;
use vstd::prelude::*;

verus! {

/// A rule that names the leader of each tick, or none.
pub trait LeaderSchedule {
    /// The rule can be asked about `tick`.
    spec fn defined(&self, tick: u64) -> bool;

    /// `who` is an answer that the rule may give for `tick`.
    spec fn may_lead(&self, tick: u64, who: Option<PublicKey>) -> bool;

    /// The leader of `tick`, if the rule names one.
    fn leader(&self, tick: u64) -> (who: Option<PublicKey>)
        requires
            self.defined(tick),
        ensures
            self.may_lead(tick, who),
    ;
}

/// A function from ticks to public keys is a schedule that always names a
/// leader.
impl<F: Fn(u64) -> PublicKey> LeaderSchedule for F {
    open spec fn defined(&self, tick: u64) -> bool {
        call_requires(*self, (tick,))
    }

    open spec fn may_lead(&self, tick: u64, who: Option<PublicKey>) -> bool {
        who is Some && call_ensures(*self, (tick,), who->0)
    }

    fn leader(&self, tick: u64) -> (who: Option<PublicKey>) {
        Some(self(tick))
    }
}

/// How many links of the hash chain a draw follows before it gives up.
pub const DRAW_LIMIT: u64 = 0xffff_ffff_ffff_ffff;

/// The number of binary digits of `x`.
pub open spec fn bit_len(x: u128) -> nat
    decreases x,
{
    if x == 0 {
        0
    } else {
        1 + bit_len(x / 2)
    }
}

/// Where the chain for `tick` starts: `seed + tick`, wrapping at 128 bits.
pub open spec fn chain_start(seed: u128, tick: u64) -> u128 {
    if seed + tick <= u128::MAX {
        (seed + tick) as u128
    } else {
        (seed + tick - u128::MAX - 1) as u128
    }
}

/// The link after `state`: the first half of the hash of its sixteen bytes.
pub open spec fn next_link(state: u128) -> u128 {
    digest(word_bytes(state)).hi
}

/// The candidate that a link gives for a total of `total`: as many of its
/// leading bits as `total` has digits.
pub open spec fn candidate_point(link: u128, total: u128) -> u128 {
    link >> ((128 - bit_len(total)) as u128)
}

/// The first candidate below `total` on the chain after `state`, among the
/// first `rounds` links.
pub open spec fn draw(state: u128, total: u128, rounds: nat) -> Option<u128>
    decreases rounds,
{
    if rounds == 0 {
        None
    } else if candidate_point(next_link(state), total) < total {
        Some(candidate_point(next_link(state), total))
    } else {
        draw(next_link(state), total, (rounds - 1) as nat)
    }
}

/// The first participant, in key order, at which the running sum of the
/// weights exceeds `point`.
pub open spec fn pick(weights: Seq<(PublicKey, u64)>, point: int) -> Option<PublicKey>
    decreases weights.len(),
{
    if weights.len() == 0 {
        None
    } else if point < weights[0].1 {
        Some(weights[0].0)
    } else {
        pick(weights.drop_first(), point - weights[0].1)
    }
}

/// The leader that the lottery with `seed` and `weights` names for `tick`:
/// none where no weight is held or the draw gives up.
pub open spec fn lottery_leader(seed: u128, weights: Seq<(PublicKey, u64)>, tick: u64) -> Option<
    PublicKey,
> {
    let total = total_weight(weights);
    if total == 0 || total > u128::MAX {
        None
    } else {
        match draw(chain_start(seed, tick), total as u128, DRAW_LIMIT as nat) {
            Some(point) => pick(weights, point as int),
            None => None,
        }
    }
}

/// The sum of the weights is the first weight and the sum of the others.
proof fn lemma_total_from_front(weights: Seq<(PublicKey, u64)>)
    requires
        weights.len() > 0,
    ensures
        total_weight(weights) == weights[0].1 + total_weight(weights.drop_first()),
    decreases weights.len(),
{
    if weights.len() == 1 {
        assert(weights.drop_last() =~= weights.drop_first());
        assert(total_weight(weights.drop_last()) == 0);
    } else {
        let inner = weights.drop_last();
        lemma_total_from_front(inner);
        assert(inner.drop_first() =~= weights.drop_first().drop_last());
        assert(weights.drop_first().last() == weights.last());
        assert(inner[0] == weights[0]);
    }
}

/// A point below the sum of the weights falls to a participant, and to one
/// that holds weight: the walk along the running sums always ends.
pub proof fn law_pick_names_a_holder(weights: Seq<(PublicKey, u64)>, point: int)
    requires
        0 <= point < total_weight(weights),
    ensures
        pick(weights, point) is Some,
        exists|i: int|
            0 <= i < weights.len() && (#[trigger] weights[i]).0 == pick(weights, point)->0
                && weights[i].1 > 0,
    decreases weights.len(),
{
    if weights.len() > 0 {
        lemma_total_from_front(weights);
        if point < weights[0].1 {
            assert(weights[0].0 == pick(weights, point)->0);
        } else {
            let rest = weights.drop_first();
            law_pick_names_a_holder(rest, point - weights[0].1);
            let i = choose|i: int|
                0 <= i < rest.len() && (#[trigger] rest[i]).0 == pick(rest, point - weights[0].1)->0
                    && rest[i].1 > 0;
            assert(weights[i + 1] == rest[i]);
        }
    }
}

/// A draw that ends gives a point below the total.
pub proof fn law_draw_below_total(state: u128, total: u128, rounds: nat)
    ensures
        draw(state, total, rounds) is Some ==> draw(state, total, rounds)->0 < total,
    decreases rounds,
{
    if rounds > 0 && !(candidate_point(next_link(state), total) < total) {
        law_draw_below_total(next_link(state), total, (rounds - 1) as nat);
    }
}

/// Whoever the lottery names holds weight; and it names nobody only where
/// no weight is held, the weights do not sum within 128 bits, or the draw
/// gives up.
pub proof fn law_lottery_names_a_holder(seed: u128, weights: Seq<(PublicKey, u64)>, tick: u64)
    ensures
        match lottery_leader(seed, weights, tick) {
            Some(who) => exists|i: int|
                0 <= i < weights.len() && (#[trigger] weights[i]).0 == who && weights[i].1 > 0,
            None => total_weight(weights) == 0 || total_weight(weights) > u128::MAX || draw(
                chain_start(seed, tick),
                total_weight(weights) as u128,
                DRAW_LIMIT as nat,
            ) is None,
        },
{
    let total = total_weight(weights);
    if 0 < total <= u128::MAX {
        let drawn = draw(chain_start(seed, tick), total as u128, DRAW_LIMIT as nat);
        if drawn is Some {
            law_draw_below_total(chain_start(seed, tick), total as u128, DRAW_LIMIT as nat);
            law_pick_names_a_holder(weights, drawn->0 as int);
        }
    }
}

/// The number of binary digits of `x`.
pub fn count_bits(x: u128) -> (n: u32)
    ensures
        n == bit_len(x),
        n <= 128,
{
    let mut n: u32 = 0;
    let mut y: u128 = x;
    assert(y <= (u128::MAX >> 0u128)) by (bit_vector);
    while y > 0
        invariant
            n <= 128,
            bit_len(x) == n + bit_len(y),
            n < 128 ==> y <= (u128::MAX >> (n as u128)),
            n == 128 ==> y == 0,
        decreases y,
    {
        let half: u128 = y / 2;
        proof {
            let m: u128 = n as u128;
            assert(m < 127 ==> half <= (u128::MAX >> ((m + 1) as u128))) by (bit_vector)
                requires
                    m < 128,
                    y <= (u128::MAX >> m),
                    half == y / 2,
            ;
            assert(m == 127 ==> half == 0) by (bit_vector)
                requires
                    m < 128,
                    y <= (u128::MAX >> m),
                    half == y / 2,
            ;
        }
        y = half;
        n = n + 1;
    }
    n
}

/// The weighted leader lottery of one instance.
pub struct Lottery {
    seed: u128,
    weights: OrderedMap<u64>,
    total: u128,
}

impl Lottery {
    /// The weights are in order, and `total` is their sum.
    pub closed spec fn wf(&self) -> bool {
        &&& self.weights.wf()
        &&& self.total == total_weight(self.weights@)
    }

    /// The seed of the hash chains.
    pub closed spec fn seed(&self) -> u128 {
        self.seed
    }

    /// The weights that the leader is drawn by.
    pub closed spec fn weights(&self) -> Seq<(PublicKey, u64)> {
        self.weights@
    }

    /// The lottery of the instance with this seed and these weights.
    pub fn new(seed: u128, weights: OrderedMap<u64>) -> (lottery: Lottery)
        requires
            weights.wf(),
        ensures
            lottery.wf(),
            lottery.seed() == seed,
            lottery.weights() == weights@,
    {
        let total = sum_weights(&weights);
        Lottery { seed, weights, total }
    }

    /// The participant at which the running sum of the weights exceeds
    /// `point`.
    pub fn pick_at(&self, point: u128) -> (who: Option<PublicKey>)
        requires
            self.wf(),
        ensures
            who == pick(self.weights(), point as int),
    {
        let mut left: u128 = point;
        let mut i: usize = 0;
        assert(self.weights@.skip(0) =~= self.weights@);
        while i < self.weights.len()
            invariant
                i <= self.weights@.len(),
                pick(self.weights@, point as int) == pick(self.weights@.skip(i as int), left as int),
            decreases self.weights@.len() - i,
        {
            let weight: u64 = *self.weights.value_at(i);
            proof {
                let rest = self.weights@.skip(i as int);
                assert(rest[0] == self.weights@[i as int]);
                assert(rest.drop_first() =~= self.weights@.skip(i + 1));
            }
            if left < weight as u128 {
                return Some(self.weights.key_at(i));
            }
            left = left - weight as u128;
            i += 1;
        }
        None
    }

    /// Draws the leader of `tick`.
    pub fn draw_leader(&self, tick: u64) -> (who: Option<PublicKey>)
        requires
            self.wf(),
        ensures
            who == lottery_leader(self.seed(), self.weights(), tick),
    {
        if self.total == 0 {
            return None;
        }
        let digits = count_bits(self.total);
        assert(digits >= 1);
        let shift: u128 = (128 - digits) as u128;
        let room: u128 = u128::MAX - self.seed;
        let start: u128 = if tick as u128 <= room {
            self.seed + tick as u128
        } else {
            tick as u128 - room - 1
        };
        assert(start == chain_start(self.seed, tick));
        let mut state: u128 = start;
        let mut round: u64 = 0;
        while round < DRAW_LIMIT
            invariant
                self.wf(),
                self.total > 0,
                start == chain_start(self.seed, tick),
                shift == 128 - bit_len(self.total),
                shift < 128,
                draw(start, self.total, DRAW_LIMIT as nat) == draw(
                    state,
                    self.total,
                    (DRAW_LIMIT - round) as nat,
                ),
            decreases DRAW_LIMIT - round,
        {
            let ghost prev = state;
            let bytes = word_to_bytes(state);
            state = hash_of(bytes.as_slice()).hi;
            let point: u128 = state >> shift;
            assert(state == next_link(prev));
            assert(point == candidate_point(next_link(prev), self.total));
            if point < self.total {
                assert(draw(prev, self.total, (DRAW_LIMIT - round) as nat) == Some(point));
                return self.pick_at(point);
            }
            round += 1;
        }
        None
    }
}

impl LeaderSchedule for Lottery {
    open spec fn defined(&self, tick: u64) -> bool {
        self.wf()
    }

    open spec fn may_lead(&self, tick: u64, who: Option<PublicKey>) -> bool {
        who == lottery_leader(self.seed(), self.weights(), tick)
    }

    fn leader(&self, tick: u64) -> (who: Option<PublicKey>) {
        self.draw_leader(tick)
    }
}

/// The sum of the weights of a table.
pub fn sum_weights(weights: &OrderedMap<u64>) -> (total: u128)
    ensures
        total == total_weight(weights@),
{
    let mut total: u128 = 0;
    let mut i: usize = 0;
    while i < weights.len()
        invariant
            i <= weights@.len(),
            total == total_weight(weights@.take(i as int)),
            total <= i * 0xffff_ffff_ffff_ffff,
        decreases weights@.len() - i,
    {
        proof {
            let next = weights@.take(i + 1);
            assert(next.drop_last() =~= weights@.take(i as int));
            assert((i + 1) * 0xffff_ffff_ffff_ffff <= 0xffff_ffff_ffff_ffff * 0xffff_ffff_ffff_ffff)
                by (nonlinear_arith)
                requires
                    i + 1 <= 0xffff_ffff_ffff_ffff,
            ;
            assert((i + 1) * 0xffff_ffff_ffff_ffff == i * 0xffff_ffff_ffff_ffff
                + 0xffff_ffff_ffff_ffff) by (nonlinear_arith);
        }
        total = total + (*weights.value_at(i) as u128);
        i += 1;
    }
    assert(weights@.take(i as int) =~= weights@);
    total
}

} // verus!
