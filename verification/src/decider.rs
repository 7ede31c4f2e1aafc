//! The driver of one participant: it moves one engine from tick to tick until
//! a proposal is decided.

use crate::bytes32::{PublicKey, SecretKey};
use crate::crypto::public_of;
use crate::engine::{weight_table, weights_from, Core};
use crate::graphviz::graph_text;
use crate::model::{known_decision, refusal, CoreView, InsertError};
use crate::schedule::{lottery_leader, Lottery};
use vstd::prelude::*;

verus! {

/// What the host of a participant provides.
pub trait DeciderConfig {
    /// A body for a proposal of this participant.
    fn generate_proposal(&self) -> Vec<u8>;

    /// Whether a proposed body is acceptable.
    fn verify_proposal(&self, prop: &[u8]) -> bool;

    /// The vote weight of each participant. It must not change between calls.
    fn vote_weights(&self) -> Vec<(PublicKey, u64)>;

    /// The seed of the instance. It must not change between calls.
    fn seed(&self) -> u128;

    /// The secret key of this participant.
    fn my_secret(&self) -> SecretKey;
}

/// The state of a driver: the engine, the tick that is running and the
/// decision, once it is known.
pub struct Driver {
    core: Core<Lottery>,
    tick: u64,
    decision: Option<Vec<u8>>,
}

impl Driver {
    /// The engine is sound.
    pub closed spec fn wf(&self) -> bool {
        self.core.wf()
    }

    /// The state of the engine.
    pub closed spec fn state(&self) -> CoreView {
        self.core@
    }

    /// The tick that is running.
    pub closed spec fn tick(&self) -> u64 {
        self.tick
    }

    /// The body that has been decided, once it is known.
    pub closed spec fn decision(&self) -> Option<Seq<u8>> {
        match self.decision {
            Some(body) => Some(body@),
            None => None,
        }
    }

    /// The leader lottery of the instance.
    pub closed spec fn schedule(&self) -> Lottery {
        self.core.schedule()
    }

    /// `who` is the leader of `tick`.
    pub open spec fn may_lead(&self, tick: u64, who: Option<PublicKey>) -> bool {
        who == lottery_leader(self.schedule().seed(), self.schedule().weights(), tick)
    }

    /// The driver of a fresh instance: its nonce is `seed`, and its leaders
    /// are drawn by `weights` from the hash chains of `seed`.
    pub fn new(seed: u128, weights: Vec<(PublicKey, u64)>) -> (d: Driver)
        ensures
            d.wf(),
            d.tick() == 0,
            d.decision() is None,
            d.state() == (CoreView {
                proposals: Seq::empty(),
                solicits: Seq::empty(),
                votes: Seq::empty(),
                seen: Set::empty(),
                nonce: seed,
                weights: weights_from(weights@),
                max_tick: 1,
            }),
            d.schedule().seed() == seed,
            d.schedule().weights() == weights_from(weights@),
    {
        let table = weight_table(&weights);
        let lottery = Lottery::new(seed, table);
        let core = Core::with_schedule(seed, weights, lottery);
        Driver { core, tick: 0, decision: None }
    }

    /// A copy of the decision, once it is known.
    fn known(&self) -> (r: Option<Vec<u8>>)
        ensures
            match r {
                Some(body) => Some(body@),
                None => None,
            } == self.decision(),
    {
        match &self.decision {
            Some(body) => Some(body.clone()),
            None => None,
        }
    }

    /// Looks whether the engine has decided, and remembers the body if it has.
    fn look(&mut self)
        requires
            old(self).wf(),
        ensures
            final(self).wf(),
            final(self).state() == old(self).state(),
            final(self).tick() == old(self).tick(),
            final(self).decision() == known_decision(old(self).state(), old(self).decision()),
            final(self).schedule() == old(self).schedule(),
    {
        let found: Option<Vec<u8>> = match self.core.get_finalized() {
            Some(p) => Some(p.body.clone()),
            None => None,
        };
        if found.is_some() {
            self.decision = found;
        }
    }

    /// The first half of a tick: raises the tick ceiling to one above the
    /// running tick, returns the decision if there is one, and otherwise
    /// writes this participant's proposal or solicit if it leads the tick.
    pub fn pre_tick<F: FnOnce() -> Vec<u8>>(&mut self, my_sk: SecretKey, gen_prop: F) -> (r: Result<
        Option<Vec<u8>>,
        InsertError,
    >)
        requires
            old(self).wf(),
            old(self).tick() < u64::MAX,
            call_requires(gen_prop, ()),
        ensures
            final(self).wf(),
            final(self).tick() == old(self).tick(),
            ({
                let opened = CoreView {
                    max_tick: (old(self).tick() + 1) as u64,
                    ..old(self).state()
                };
                let known = known_decision(opened, old(self).decision());
                &&& final(self).decision() == known
                &&& known is Some ==> final(self).state() == opened && r is Ok && r->Ok_0 is Some
                    && r->Ok_0->0@ == known->0
                &&& known is None ==> (r is Ok ==> r->Ok_0 is None) && exists|
                    who: Option<PublicKey>,
                    body: Vec<u8>,
                |
                    #![trigger old(self).may_lead(old(self).tick(), who), body@]
                    {
                        let leads = who == Some(public_of(my_sk));
                        &&& old(self).may_lead(old(self).tick(), who)
                        &&& !leads || opened.has_tip() || call_ensures(gen_prop, (), body)
                        &&& opened.took_turn(
                            leads,
                            old(self).tick(),
                            my_sk,
                            body@,
                            final(self).state(),
                            refusal(r),
                        )
                    }
            }),
            final(self).schedule() == old(self).schedule(),
    {
        self.core.set_max_tick(self.tick + 1);
        self.look();
        let known = self.known();
        if known.is_some() {
            return Ok(known);
        }
        let ghost opened = self.core@;
        let ghost asked = self.core;
        let outcome = self.core.insert_my_prop_or_solicit(self.tick, my_sk, gen_prop);
        proof {
            let (who, body) = choose|who: Option<PublicKey>, body: Vec<u8>|
                #![trigger asked.may_lead(self.tick, who), body@]
                {
                    let leads = who == Some(public_of(my_sk));
                    &&& asked.may_lead(self.tick, who)
                    &&& !leads || opened.has_tip() || call_ensures(gen_prop, (), body)
                    &&& opened.took_turn(leads, self.tick, my_sk, body@, self.core@, refusal(outcome))
                };
            assert(old(self).may_lead(old(self).tick(), who));
            assert(opened.took_turn(
                who == Some(public_of(my_sk)),
                old(self).tick(),
                my_sk,
                body@,
                self.state(),
                refusal(outcome),
            ));
        }
        match outcome {
            Ok(()) => Ok(None),
            Err(e) => Err(e),
        }
    }

    /// The second half of a tick: returns the decision if there is one, and
    /// otherwise casts this participant's votes and moves on to the next
    /// tick.
    pub fn post_tick(&mut self, my_sk: SecretKey) -> (r: Result<Option<Vec<u8>>, InsertError>)
        requires
            old(self).wf(),
            old(self).tick() < u64::MAX,
        ensures
            final(self).wf(),
            ({
                let known = known_decision(old(self).state(), old(self).decision());
                let cast = old(self).state().cast_votes(old(self).state().vote_targets(), my_sk);
                &&& final(self).decision() == known
                &&& known is Some ==> final(self).state() == old(self).state() && final(self).tick()
                    == old(self).tick() && r is Ok && r->Ok_0 is Some && r->Ok_0->0@ == known->0
                &&& known is None ==> final(self).state() == cast.0 && refusal(r) == cast.1 && (r is Ok
                    ==> r->Ok_0 is None) && final(self).tick() == (if cast.1 is None {
                    old(self).tick() + 1
                } else {
                    old(self).tick() as int
                })
            }),
            final(self).schedule() == old(self).schedule(),
    {
        self.look();
        let known = self.known();
        if known.is_some() {
            return Ok(known);
        }
        match self.core.insert_my_votes(my_sk) {
            Ok(()) => {
                self.tick = self.tick + 1;
                Ok(None)
            },
            Err(e) => Err(e),
        }
    }

    /// The tick that is running.
    pub fn current_tick(&self) -> (tick: u64)
        ensures
            tick == self.tick(),
    {
        self.tick
    }

    /// The engine, to bring up to date with what peers know. Messages may be
    /// offered to it; the tick and the decision stay as they are.
    pub fn engine_mut(&mut self) -> (engine: &mut Core<Lottery>)
        ensures
            engine@ == old(self).state(),
            engine.wf() == old(self).wf(),
            engine.schedule() == old(self).schedule(),
            final(self).state() == final(engine)@,
            final(self).wf() == final(engine).wf(),
            final(self).schedule() == final(engine).schedule(),
            final(self).tick() == old(self).tick(),
            final(self).decision() == old(self).decision(),
    {
        &mut self.core
    }

    /// The engine, to read.
    pub fn engine(&self) -> (engine: &Core<Lottery>)
        ensures
            engine@ == self.state(),
            engine.wf() == self.wf(),
    {
        &self.core
    }
}

/// One participant of one instance: a driver with the host's configuration.
pub struct Decider<C: DeciderConfig> {
    config: C,
    driver: Driver,
}

impl<C: DeciderConfig> Decider<C> {
    /// The driver is sound.
    pub closed spec fn wf(&self) -> bool {
        self.driver.wf()
    }

    /// The tick that is running.
    pub closed spec fn tick(&self) -> u64 {
        self.driver.tick()
    }

    /// The state of the engine.
    pub closed spec fn state(&self) -> CoreView {
        self.driver.state()
    }

    /// The body that has been decided, once it is known.
    pub closed spec fn decision(&self) -> Option<Seq<u8>> {
        self.driver.decision()
    }

    /// `who` is the leader of `tick`.
    pub open spec fn may_lead(&self, tick: u64, who: Option<PublicKey>) -> bool {
        who == lottery_leader(self.schedule().seed(), self.schedule().weights(), tick)
    }

    /// The leader lottery of the instance.
    pub closed spec fn schedule(&self) -> Lottery {
        self.driver.schedule()
    }

    /// The configuration that the host gave when the participant was made.
    pub closed spec fn host(&self) -> C {
        self.config
    }

    /// Makes the participant that `config` describes, at tick 0 of an empty
    /// instance. The seed that `config` gives is the nonce of the instance
    /// and the seed of its lottery, and the weights that `config` gives are
    /// those by which votes count and leaders are drawn.
    pub fn new(config: C) -> (d: Self)
        ensures
            d.wf(),
            d.host() == config,
            d.tick() == 0,
            d.decision() is None,
            d.schedule().seed() == d.state().nonce,
            d.schedule().weights() == d.state().weights,
            d.state().proposals.len() == 0,
            d.state().solicits.len() == 0,
            d.state().votes.len() == 0,
            d.state().seen == Set::<(u64, PublicKey)>::empty(),
            d.state().max_tick == 1,
    {
        let seed = config.seed();
        let weights = config.vote_weights();
        let driver = Driver::new(seed, weights);
        Decider { config, driver }
    }

    /// The first half of a tick, with the key and the proposal body that the
    /// host gives: the tick ceiling is raised to one above the running tick;
    /// the decision is returned if there is one; otherwise the participant
    /// writes its proposal or solicit if it leads the tick.
    pub fn pre_tick(&mut self) -> (r: Result<Option<Vec<u8>>, InsertError>)
        requires
            old(self).wf(),
            old(self).tick() < u64::MAX,
        ensures
            final(self).wf(),
            final(self).tick() == old(self).tick(),
            final(self).schedule() == old(self).schedule(),
            final(self).host() == old(self).host(),
            ({
                let opened = CoreView {
                    max_tick: (old(self).tick() + 1) as u64,
                    ..old(self).state()
                };
                let known = known_decision(opened, old(self).decision());
                &&& final(self).decision() == known
                &&& known is Some ==> final(self).state() == opened && r is Ok && r->Ok_0 is Some
                    && r->Ok_0->0@ == known->0
                &&& known is None ==> (r is Ok ==> r->Ok_0 is None) && exists|
                    who: Option<PublicKey>,
                    my_sk: SecretKey,
                    body: Vec<u8>,
                |
                    #![trigger old(self).may_lead(old(self).tick(), who), public_of(my_sk), body@]
                    {
                        &&& old(self).may_lead(old(self).tick(), who)
                        &&& opened.took_turn(
                            who == Some(public_of(my_sk)),
                            old(self).tick(),
                            my_sk,
                            body@,
                            final(self).state(),
                            refusal(r),
                        )
                    }
            }),
    {
        let my_sk = self.config.my_secret();
        let config = &self.config;
        let gen_prop = || -> (body: Vec<u8>) { config.generate_proposal() };
        let ghost before = self.driver;
        let r = self.driver.pre_tick(my_sk, gen_prop);
        proof {
            let opened = CoreView { max_tick: (before.tick() + 1) as u64, ..before.state() };
            if known_decision(opened, before.decision()) is None {
                let (who, body) = choose|who: Option<PublicKey>, body: Vec<u8>|
                    #![trigger before.may_lead(before.tick(), who), body@]
                    {
                        let leads = who == Some(public_of(my_sk));
                        &&& before.may_lead(before.tick(), who)
                        &&& !leads || opened.has_tip() || call_ensures(gen_prop, (), body)
                        &&& opened.took_turn(
                            leads,
                            before.tick(),
                            my_sk,
                            body@,
                            self.driver.state(),
                            refusal(r),
                        )
                    };
                assert(old(self).may_lead(old(self).tick(), who) && opened.took_turn(
                    who == Some(public_of(my_sk)),
                    old(self).tick(),
                    my_sk,
                    body@,
                    self.state(),
                    refusal(r),
                ));
            }
        }
        r
    }

    /// The second half of a tick, with the key that the host gives: the
    /// decision is returned if there is one; otherwise the participant casts
    /// its votes and moves on to the next tick.
    pub fn post_tick(&mut self) -> (r: Result<Option<Vec<u8>>, InsertError>)
        requires
            old(self).wf(),
            old(self).tick() < u64::MAX,
        ensures
            final(self).wf(),
            final(self).schedule() == old(self).schedule(),
            final(self).host() == old(self).host(),
            ({
                let known = known_decision(old(self).state(), old(self).decision());
                &&& final(self).decision() == known
                &&& known is Some ==> final(self).state() == old(self).state() && final(self).tick()
                    == old(self).tick() && r is Ok && r->Ok_0 is Some && r->Ok_0->0@ == known->0
                &&& known is None ==> (r is Ok ==> r->Ok_0 is None) && exists|my_sk: SecretKey|
                    #[trigger] old(self).state().cast_votes(
                        old(self).state().vote_targets(),
                        my_sk,
                    ) == (
                        final(self).state(),
                        refusal(r),
                    )
                &&& known is None ==> final(self).tick() == (if r is Ok {
                    old(self).tick() + 1
                } else {
                    old(self).tick() as int
                })
            }),
    {
        let my_sk = self.config.my_secret();
        let r = self.driver.post_tick(my_sk);
        proof {
            if known_decision(old(self).state(), old(self).decision()) is None {
                assert(old(self).state().cast_votes(old(self).state().vote_targets(), my_sk) == (
                    self.state(),
                    refusal(r),
                ));
            }
        }
        r
    }

    /// Draws the proposals and solicits that this participant knows as a
    /// graph in the DOT language.
    pub fn debug_graphviz(&self) -> (output: String)
        requires
            self.wf(),
        ensures
            output@ == graph_text(self.state()),
    {
        self.driver.engine().debug_graphviz()
    }

    /// The tick that is running.
    pub fn current_tick(&self) -> (tick: u64)
        ensures
            tick == self.tick(),
    {
        self.driver.current_tick()
    }

    /// The engine, to bring up to date with what peers know. Messages may be
    /// offered to it; the tick and the decision stay as they are.
    pub fn engine_mut(&mut self) -> (engine: &mut Core<Lottery>)
        ensures
            engine@ == old(self).state(),
            engine.wf() == old(self).wf(),
            engine.schedule() == old(self).schedule(),
            final(self).state() == final(engine)@,
            final(self).wf() == final(engine).wf(),
            final(self).schedule() == final(engine).schedule(),
            final(self).tick() == old(self).tick(),
            final(self).decision() == old(self).decision(),
            final(self).host() == old(self).host(),
    {
        self.driver.engine_mut()
    }

    /// The host's configuration together with the engine, for a host whose
    /// configuration is what brings the engine up to date.
    pub fn config_and_engine(&mut self) -> (r: (&C, &mut Core<Lottery>))
        ensures
            *r.0 == old(self).host(),
            final(self).host() == old(self).host(),
            r.1@ == old(self).state(),
            r.1.wf() == old(self).wf(),
            r.1.schedule() == old(self).schedule(),
            final(self).state() == final(r.1)@,
            final(self).wf() == final(r.1).wf(),
            final(self).schedule() == final(r.1).schedule(),
            final(self).tick() == old(self).tick(),
            final(self).decision() == old(self).decision(),
    {
        (&self.config, self.driver.engine_mut())
    }

    /// The engine, to read.
    pub fn engine(&self) -> (engine: &Core<Lottery>)
        ensures
            engine@ == self.state(),
            engine.wf() == self.wf(),
    {
        self.driver.engine()
    }

    /// The host's configuration: the one that the participant was made with,
    /// which no operation of the participant replaces.
    pub fn config(&self) -> (config: &C)
        ensures
            *config == self.host(),
    {
        &self.config
    }

    /// The driver, to read.
    pub fn driver(&self) -> (driver: &Driver)
        ensures
            driver.wf() == self.wf(),
    {
        &self.driver
    }
}

} // verus!
