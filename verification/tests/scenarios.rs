use streamlette::{
    Core, Decider, DeciderConfig, DiffMessage, InsertError, LeaderSchedule, Message, Proposal,
    PublicKey, SecretKey, Solicit, Vote,
};

fn fresh_key() -> SecretKey {
    SecretKey { bytes: tmelcrypt::Ed25519SK::generate().0 }
}

const KEYS: [&str; 7] = [
    "f35aa43a7d0b7873a950d477436230932ffffef8d3b5938964e5d1a562678b094261f416df722c4fc3a394049bb40ee12e60788b4843470486ade27b9204773d",
    "9487020d33747ef1b48422508da6c358bf10b7c5ba05f5c8cebfaca26281a53ce76a7056d3b8ec0a3eefe61fb0966c7695ffe36ec633dcb38ee4d6b90b5141a2",
    "ec62c3ffc9e54c2318205270d1f2740a1021a68879f255fc3e11f2a38b8a85889a2ef1f3319f8635ea82731c607c4a9a93e44803a7e41f1ae8db367f9c4b2adf",
    "eb79cd6423ca08c604632b3a8c3698ea5844a3aa7dbaba4ecad39b5a1ce4082e2bb96a1712601ef4c50f96383f8ae973c1ab2f2cfc3a30b99e38cf7edb6bc0ee",
    "812eaa4240bc6929ec47c2fca3e68566ac6d393975c2f61fbe54cc95f4ecd4d431afe986e97ee1c1477cecf42fe1296f411db1ac82ad0fd15ec448a1bbcdce81",
    "e81b7b8bd4f0c8032fb53508c2a09cab2d346db97adc36360d190651632ee44fe41dce4df12fb1b23819ff20b7e3ca7c0c9e7ef85a58fd90810470338059766c",
    "1e77be3dfc4a4b62258949acd3efad016f7cc1489a0969976dbe18e5f9f45232d6c1ee931d6cf027c2e658da71ae1c03edc4151fff0516be2273ac0cdd0f6bb9",
];

fn fixed_key(index: usize) -> SecretKey {
    let bytes = hex::decode(KEYS[index]).unwrap();
    let mut key = [0u8; 64];
    key.copy_from_slice(&bytes);
    SecretKey { bytes: key }
}

struct MockConfig {
    participants: Vec<(SecretKey, u64)>,
    index: usize,
    rng: std::rc::Rc<std::cell::RefCell<fastrand::Rng>>,
}

impl DeciderConfig for MockConfig {
    fn generate_proposal(&self) -> Vec<u8> {
        format!("prop {} from {}", self.rng.borrow_mut().u64(..) % 1000, self.index).into_bytes()
    }

    fn verify_proposal(&self, _prop: &[u8]) -> bool {
        true
    }

    fn vote_weights(&self) -> Vec<(PublicKey, u64)> {
        self.participants.iter().map(|(k, v)| (k.to_public(), *v)).collect()
    }

    fn seed(&self) -> u128 {
        0
    }

    fn my_secret(&self) -> SecretKey {
        self.participants[self.index].0
    }
}

fn pull<L: LeaderSchedule, M: LeaderSchedule>(into: &mut Core<L>, from: &Core<M>) {
    let summary = into.summary();
    for diff in from.get_diff(&summary) {
        let _ = into.apply_one_diff(diff);
    }
}

fn sync_all(deciders: &mut Vec<Decider<MockConfig>>, banned: &[bool]) {
    for i in 0..deciders.len() {
        if banned[i] {
            continue;
        }
        for j in 0..deciders.len() {
            if i == j || banned[j] {
                continue;
            }
            let snapshot = deciders[j].engine().snapshot();
            pull(deciders[i].engine_mut(), &snapshot);
        }
    }
}

fn run(count: usize, rounds: u64, ban_one_in: u64, seed: u64) -> Option<(u64, Vec<u8>)> {
    let rng = std::rc::Rc::new(std::cell::RefCell::new(fastrand::Rng::with_seed(seed)));
    let participants: Vec<(SecretKey, u64)> = (0..count).map(|i| (fixed_key(i), 1)).collect();
    let mut deciders: Vec<Decider<MockConfig>> = (0..count)
        .map(|index| {
            Decider::new(MockConfig { participants: participants.clone(), index, rng: rng.clone() })
        })
        .collect();
    for round in 0..rounds {
        let banned: Vec<bool> = (0..count)
            .map(|_| ban_one_in != 0 && rng.borrow_mut().u64(..) % ban_one_in == 0)
            .collect();
        let mut decisions: Vec<Vec<u8>> = vec![];
        for (i, decider) in deciders.iter_mut().enumerate() {
            if banned[i] {
                continue;
            }
            if let Some(res) = decider.pre_tick().expect("could not insert my OWN proposal!") {
                decisions.push(res);
            }
        }
        if decisions.len() == count {
            for d in decisions.iter() {
                assert_eq!(d, &decisions[0]);
            }
            return Some((round, decisions[0].clone()));
        }
        sync_all(&mut deciders, &banned);
        for (i, decider) in deciders.iter_mut().enumerate() {
            if banned[i] {
                continue;
            }
            decider.post_tick().expect("own vote could not be inserted");
        }
        sync_all(&mut deciders, &banned);
    }
    None
}

#[test]
fn three_participants_round_robin() {
    let keys: Vec<SecretKey> = (0..3).map(|_| fresh_key()).collect();
    let publics: Vec<PublicKey> = keys.iter().map(|k| k.to_public()).collect();
    let mut cores: Vec<_> = (0..3)
        .map(|_| {
            let publics = publics.clone();
            let order = publics.clone();
            Core::new(
                9,
                publics.iter().map(|p| (*p, 1)).collect(),
                move |tick: u64| order[(tick as usize) % order.len()],
            )
        })
        .collect();
    let mut leaders_seen = vec![];
    let mut finalized_at = None;
    for tick in 0..5u64 {
        for (i, core) in cores.iter_mut().enumerate() {
            core.set_max_tick(tick + 1);
            let before = core.summary().len();
            core.insert_my_prop_or_solicit(tick, keys[i], || format!("body-{}", i).into_bytes())
                .unwrap();
            if core.summary().len() > before {
                leaders_seen.push(i);
            }
        }
        for i in 0..3 {
            for j in 0..3 {
                if i != j {
                    let other = cores[j].snapshot();
                    pull(&mut cores[i], &other);
                }
            }
        }
        for (i, core) in cores.iter_mut().enumerate() {
            core.insert_my_votes(keys[i]).unwrap();
        }
        for i in 0..3 {
            for j in 0..3 {
                if i != j {
                    let other = cores[j].snapshot();
                    pull(&mut cores[i], &other);
                }
            }
        }
        if cores.iter().all(|c| c.get_finalized().is_some()) {
            finalized_at = Some(tick);
            break;
        }
    }
    assert_eq!(finalized_at, Some(2));
    assert_eq!(leaders_seen, vec![0, 1, 2]);
    for core in cores.iter() {
        assert_eq!(core.get_finalized().unwrap().body, b"body-0".to_vec());
    }
}

#[test]
fn seven_participants_synchronous() {
    let (round, body) = run(7, 10, 0, 0).expect("no decision within 10 ticks");
    assert_eq!(round, 3);
    assert!(body.starts_with(b"prop "));
}

#[test]
fn seven_participants_a_quarter_absent() {
    for seed in 0..4 {
        let (round, body) = run(7, 100, 4, seed).expect("took too many ticks");
        println!("seed {}: decided in round {}", seed, round);
        assert!(round < 100);
        assert!(body.starts_with(b"prop "));
    }
}

#[test]
fn equivocating_proposer_is_refused() {
    let keys: Vec<SecretKey> = (0..4).map(|_| fresh_key()).collect();
    let publics: Vec<PublicKey> = keys.iter().map(|k| k.to_public()).collect();
    let order = publics.clone();
    let mut core = Core::new(
        3,
        publics.iter().map(|p| (*p, 1)).collect(),
        move |tick: u64| order[(tick as usize) % order.len()],
    );
    let first = Proposal::new(3, 0, b"first".to_vec(), keys[0]);
    let second = Proposal::new(3, 0, b"second".to_vec(), keys[0]);
    let root = first.chash();
    assert_eq!(core.insert_proposal(first), Ok(()));
    assert_eq!(core.insert_proposal(second), Err(InsertError::Equivocation));
    let mut finalized = false;
    for tick in 0..5u64 {
        core.set_max_tick(tick + 1);
        for key in keys.iter() {
            core.insert_my_prop_or_solicit(tick, *key, || b"later".to_vec())
                .or_else(|e| if e == InsertError::Equivocation { Ok(()) } else { Err(e) })
                .unwrap();
        }
        for key in keys.iter() {
            core.insert_my_votes(*key).unwrap();
        }
        if let Some(p) = core.get_finalized() {
            assert_eq!(p.body, b"first".to_vec());
            assert_eq!(p.chash(), root);
            finalized = true;
            break;
        }
    }
    assert!(finalized);
}

#[test]
fn diff_replay_matches_decision() {
    let keys: Vec<SecretKey> = (0..4).map(|_| fresh_key()).collect();
    let publics: Vec<PublicKey> = keys.iter().map(|k| k.to_public()).collect();
    let order = publics.clone();
    let mut a = Core::new(
        5,
        publics.iter().map(|p| (*p, 1)).collect(),
        move |tick: u64| order[(tick as usize) % order.len()],
    );
    let order = publics.clone();
    let mut b = Core::new(
        5,
        publics.iter().map(|p| (*p, 1)).collect(),
        move |tick: u64| order[(tick as usize) % order.len()],
    );
    for tick in 0..4u64 {
        a.set_max_tick(tick + 1);
        for key in keys.iter() {
            a.insert_my_prop_or_solicit(tick, *key, || b"payload".to_vec()).unwrap();
        }
        for key in keys.iter() {
            a.insert_my_votes(*key).unwrap();
        }
    }
    assert!(a.get_finalized().is_some());
    assert!(b.get_finalized().is_none());
    b.set_max_tick(a.max_tick());
    let diff = a.get_diff(&b.summary());
    let mut last_tick = 0;
    let mut votes_started = false;
    for m in diff.iter() {
        match m {
            DiffMessage::Proposal(p) => {
                assert!(!votes_started && p.tick >= last_tick);
                last_tick = p.tick;
            }
            DiffMessage::Solicit(s) => {
                assert!(!votes_started && s.tick >= last_tick);
                last_tick = s.tick;
            }
            DiffMessage::Vote(_) => votes_started = true,
        }
    }
    for m in diff {
        assert_eq!(b.apply_one_diff(m), Ok(()));
    }
    assert_eq!(b.get_finalized().unwrap().body, a.get_finalized().unwrap().body);
    assert_eq!(b.get_lnc_tips(), a.get_lnc_tips());
    assert!(a.get_diff(&b.summary()).is_empty());
    assert!(b.get_diff(&a.summary()).is_empty());
    let again = a.get_diff(&Core::new(5, vec![], |_t: u64| publics[0]).summary());
    for m in again {
        let is_vote = matches!(m, DiffMessage::Vote(_));
        let second = b.apply_one_diff(m);
        if is_vote {
            assert_eq!(second, Ok(()));
        } else {
            assert_eq!(second, Err(InsertError::Equivocation));
        }
    }
    assert!(a.get_diff(&b.summary()).is_empty());
}

#[test]
fn admission_errors() {
    let sk = fresh_key();
    let other = fresh_key();
    let pk = sk.to_public();
    let mut core = Core::new(1, vec![(pk, 1)], move |_t: u64| pk);
    assert_eq!(
        core.insert_proposal(Proposal::new(2, 0, vec![], sk)),
        Err(InsertError::BadNonce)
    );
    let mut forged = Proposal::new(1, 0, vec![1], sk);
    forged.source = other.to_public();
    assert_eq!(core.insert_proposal(forged), Err(InsertError::BadSignature));
    assert_eq!(
        core.insert_proposal(Proposal::new(1, 2, vec![], sk)),
        Err(InsertError::TickBeyondHorizon)
    );
    let root = Proposal::new(1, 1, vec![7], sk);
    let root_hash = root.chash();
    assert_eq!(core.insert_proposal(root), Ok(()));
    let missing = Vote::new(1, root_hash, sk).chash();
    assert_eq!(
        core.insert_solicit(Solicit::new(1, 1, missing, sk)),
        Err(InsertError::DanglingParent)
    );
    assert_eq!(
        core.insert_solicit(Solicit::new(1, 1, root_hash, other)),
        Err(InsertError::NonMonotonicTick)
    );
    assert_eq!(
        core.insert_solicit(Solicit::new(1, 0, root_hash, other)),
        Err(InsertError::NonMonotonicTick)
    );
    assert_eq!(
        core.insert_solicit(Solicit::new(1, 2, root_hash, other)),
        Err(InsertError::TickBeyondHorizon)
    );
    assert_eq!(core.insert_vote(Vote::new(1, missing, sk)), Err(InsertError::DanglingTarget));
    assert_eq!(core.insert_vote(Vote::new(0, root_hash, sk)), Err(InsertError::BadNonce));
    let mut unsigned = Vote::new(1, root_hash, sk);
    unsigned.signature = vec![];
    assert_eq!(core.insert_vote(unsigned), Err(InsertError::BadSignature));
    core.set_max_tick(2);
    assert_eq!(core.insert_solicit(Solicit::new(1, 2, root_hash, sk)), Ok(()));
    assert_eq!(
        core.insert_solicit(Solicit::new(1, 2, root_hash, sk)),
        Err(InsertError::Equivocation)
    );
}
