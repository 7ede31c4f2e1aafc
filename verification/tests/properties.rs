use std::collections::BTreeMap;

use serde::ser::SerializeStruct;

use streamlette::{
    Bytes32, Core, DiffMessage, HashVal, InsertError, LeaderSchedule, Lottery, Message,
    OrderedMap, Proposal, PublicKey, SecretKey, Solicit, Vote,
};

const PAIRS: [&str; 4] = [
    "f35aa43a7d0b7873a950d477436230932ffffef8d3b5938964e5d1a562678b094261f416df722c4fc3a394049bb40ee12e60788b4843470486ade27b9204773d",
    "9487020d33747ef1b48422508da6c358bf10b7c5ba05f5c8cebfaca26281a53ce76a7056d3b8ec0a3eefe61fb0966c7695ffe36ec633dcb38ee4d6b90b5141a2",
    "ec62c3ffc9e54c2318205270d1f2740a1021a68879f255fc3e11f2a38b8a85889a2ef1f3319f8635ea82731c607c4a9a93e44803a7e41f1ae8db367f9c4b2adf",
    "eb79cd6423ca08c604632b3a8c3698ea5844a3aa7dbaba4ecad39b5a1ce4082e2bb96a1712601ef4c50f96383f8ae973c1ab2f2cfc3a30b99e38cf7edb6bc0ee",
];

fn pair(index: usize) -> SecretKey {
    let bytes = hex::decode(PAIRS[index]).unwrap();
    let mut key = [0u8; 64];
    key.copy_from_slice(&bytes);
    SecretKey { bytes: key }
}

fn round_robin(nonce: u128, weights: &[u64]) -> (Vec<SecretKey>, Core<impl LeaderSchedule>) {
    let keys: Vec<SecretKey> = (0..weights.len()).map(pair).collect();
    let publics: Vec<PublicKey> = keys.iter().map(|k| k.to_public()).collect();
    let table = publics.iter().copied().zip(weights.iter().copied()).collect();
    let core = Core::new(nonce, table, move |tick: u64| publics[(tick as usize) % publics.len()]);
    (keys, core)
}

struct StructProposal {
    nonce: u128,
    tick: u64,
    body: bytes::Bytes,
    source: tmelcrypt::Ed25519PK,
    signature: bytes::Bytes,
}

impl serde::Serialize for StructProposal {
    fn serialize<S: serde::Serializer>(&self, serializer: S) -> Result<S::Ok, S::Error> {
        let mut state = serializer.serialize_struct("Proposal", 5)?;
        state.serialize_field("nonce", &self.nonce)?;
        state.serialize_field("tick", &self.tick)?;
        state.serialize_field("body", &self.body)?;
        state.serialize_field("source", &self.source)?;
        state.serialize_field("signature", &self.signature)?;
        state.end()
    }
}

struct StructSolicit {
    nonce: u128,
    tick: u64,
    previous: tmelcrypt::HashVal,
    source: tmelcrypt::Ed25519PK,
    signature: bytes::Bytes,
}

impl serde::Serialize for StructSolicit {
    fn serialize<S: serde::Serializer>(&self, serializer: S) -> Result<S::Ok, S::Error> {
        let mut state = serializer.serialize_struct("Solicit", 5)?;
        state.serialize_field("nonce", &self.nonce)?;
        state.serialize_field("tick", &self.tick)?;
        state.serialize_field("previous", &self.previous)?;
        state.serialize_field("source", &self.source)?;
        state.serialize_field("signature", &self.signature)?;
        state.end()
    }
}

struct StructVote {
    nonce: u128,
    voting_for: tmelcrypt::HashVal,
    source: tmelcrypt::Ed25519PK,
    signature: bytes::Bytes,
}

impl serde::Serialize for StructVote {
    fn serialize<S: serde::Serializer>(&self, serializer: S) -> Result<S::Ok, S::Error> {
        let mut state = serializer.serialize_struct("Vote", 4)?;
        state.serialize_field("nonce", &self.nonce)?;
        state.serialize_field("voting_for", &self.voting_for)?;
        state.serialize_field("source", &self.source)?;
        state.serialize_field("signature", &self.signature)?;
        state.end()
    }
}

#[test]
fn canonical_hash_is_the_hash_of_the_struct_with_an_empty_signature() {
    let sk = pair(0);
    let theirs = tmelcrypt::Ed25519SK(sk.bytes);
    let p = Proposal::new(1 << 100, 300, vec![9; 300], sk);
    let as_struct = StructProposal {
        nonce: 1 << 100,
        tick: 300,
        body: vec![9u8; 300].into(),
        source: theirs.to_public(),
        signature: bytes::Bytes::new(),
    };
    let expected = tmelcrypt::hash_single(stdcode::serialize(&as_struct).unwrap());
    assert_eq!(p.chash().to_bytes(), expected.0);
    assert_eq!(p.signature, theirs.sign(&expected.0));
    assert_eq!(p.source.to_bytes(), theirs.to_public().0);

    let s = Solicit::new(7, 70000, p.chash(), sk);
    let as_struct = StructSolicit {
        nonce: 7,
        tick: 70000,
        previous: expected,
        source: theirs.to_public(),
        signature: bytes::Bytes::new(),
    };
    let expected_s = tmelcrypt::hash_single(stdcode::serialize(&as_struct).unwrap());
    assert_eq!(s.chash().to_bytes(), expected_s.0);
    assert_eq!(s.signature, theirs.sign(&expected_s.0));

    let v = Vote::new(u128::MAX, s.chash(), sk);
    let as_struct = StructVote {
        nonce: u128::MAX,
        voting_for: expected_s,
        source: theirs.to_public(),
        signature: bytes::Bytes::new(),
    };
    let expected_v = tmelcrypt::hash_single(stdcode::serialize(&as_struct).unwrap());
    assert_eq!(v.chash().to_bytes(), expected_v.0);
    assert!(v.verify_sig());
    assert!(theirs.to_public().verify(&expected_v.0, &v.signature));
}

#[test]
fn the_signature_is_not_part_of_the_hash() {
    let sk = pair(1);
    let mut v = Vote::new(3, Bytes32 { hi: 1, lo: 2 }, sk);
    let before = v.chash();
    assert!(v.verify_sig());
    v.signature[0] ^= 1;
    assert_eq!(v.chash(), before);
    assert!(!v.verify_sig());
    assert_eq!(v.source(), sk.to_public());
    assert_eq!(v.signature().len(), 64);
}

#[test]
fn words_order_as_their_bytes_do() {
    let mut samples: Vec<[u8; 32]> = vec![[0u8; 32], [255u8; 32]];
    for i in 0..32 {
        let mut one = [0u8; 32];
        one[i] = 1;
        samples.push(one);
        let mut high = [7u8; 32];
        high[i] = 200;
        samples.push(high);
    }
    for a in samples.iter() {
        let x = Bytes32::from_bytes(a);
        assert_eq!(&x.to_bytes(), a);
        for b in samples.iter() {
            let y = Bytes32::from_bytes(b);
            assert_eq!(x.less_than(&y), a < b);
            assert_eq!(x == y, a == b);
            let mut mixed = [0u8; 32];
            for i in 0..32 {
                mixed[i] = a[i] ^ b[i];
            }
            assert_eq!(x.xor(&y).to_bytes(), mixed);
        }
    }
    assert_eq!(Bytes32::all_zero().to_bytes(), [0u8; 32]);
    let mut bytes = [0u8; 32];
    bytes[15] = 1;
    bytes[31] = 2;
    assert_eq!(Bytes32::from_bytes(&bytes), Bytes32 { hi: 1, lo: 2 });
}

#[test]
fn ordered_map_keeps_keys_in_order() {
    let mut map: OrderedMap<u64> = OrderedMap::new();
    let key = |n: u128| Bytes32 { hi: n / 10, lo: n % 10 };
    for n in [50u128, 10, 30, 20, 40, 10, 35] {
        map.insert(key(n), n as u64 * 2);
    }
    map.insert(key(30), 1);
    assert_eq!(map.len(), 6);
    let keys: Vec<Bytes32> = (0..map.len()).map(|i| map.key_at(i)).collect();
    assert_eq!(keys, vec![key(10), key(20), key(30), key(35), key(40), key(50)]);
    let values: Vec<u64> = (0..map.len()).map(|i| *map.value_at(i)).collect();
    assert_eq!(values, vec![20, 40, 1, 70, 80, 100]);
    assert_eq!(map.get(&key(35)), Some(&70));
    assert_eq!(map.get(&key(36)), None);
    assert!(map.contains_key(&key(50)));
    assert!(!map.contains_key(&key(5)));
    assert_eq!(map.lower_bound(&key(36)), 4);
    assert_eq!(map.lower_bound(&key(60)), 6);
    let copy = map.replicate();
    assert_eq!(copy.len(), 6);
    assert_eq!(copy.get(&key(30)), Some(&1));
}

#[test]
fn a_fresh_core_is_empty() {
    let (_keys, core) = round_robin(4, &[1, 1, 1]);
    assert_eq!(core.summary().len(), 0);
    assert!(core.get_lnc_tips().is_empty());
    assert!(core.get_finalized().is_none());
    assert_eq!(core.max_tick(), 1);
    assert_eq!(core.nonce(), 4);
    assert_eq!(core.total_votes(), 3);
    assert_eq!(core.weights().len(), 3);
    assert_eq!(core.debug_graphviz(), "digraph G {\n}\n");
    let other = round_robin(4, &[1, 1, 1]).1;
    assert!(core.get_diff(&other.summary()).is_empty());
}

#[test]
fn one_proposal_without_votes_has_no_tip() {
    let (keys, mut core) = round_robin(4, &[1, 1, 1]);
    core.insert_my_prop_or_solicit(0, keys[0], || b"only".to_vec()).unwrap();
    assert_eq!(core.proposals().len(), 1);
    assert_eq!(core.summary().len(), 1);
    assert_eq!(*core.summary().value_at(0), Bytes32::all_zero());
    assert!(core.get_lnc_tips().is_empty());
    assert!(core.get_finalized().is_none());
    let h = core.proposals().key_at(0);
    assert!(!core.is_notarized(h));
    assert_eq!(core.lookup_len(h), 0);
}

#[test]
fn nothing_is_notarized_where_the_weights_sum_to_zero() {
    let (keys, mut core) = round_robin(4, &[0, 0, 0]);
    assert_eq!(core.total_votes(), 0);
    core.insert_my_prop_or_solicit(0, keys[0], || b"weightless".to_vec()).unwrap();
    for key in keys.iter() {
        core.insert_my_votes(*key).unwrap();
    }
    assert_eq!(core.votes().len(), 3);
    let h = core.proposals().key_at(0);
    assert!(!core.is_notarized(h));
    assert!(core.get_lnc_tips().is_empty());
    assert!(core.get_finalized().is_none());
}

#[test]
fn notarization_needs_more_than_two_thirds() {
    // weights 5, 1, 1: the total is 7 and the threshold is 2 * 7 / 3 = 4
    let (keys, mut core) = round_robin(4, &[5, 1, 1]);
    core.insert_my_prop_or_solicit(0, keys[0], || b"x".to_vec()).unwrap();
    let h = core.proposals().key_at(0);
    core.insert_my_votes(keys[1]).unwrap();
    core.insert_my_votes(keys[2]).unwrap();
    assert!(!core.is_notarized(h));
    core.insert_my_votes(keys[0]).unwrap();
    assert!(core.is_notarized(h));
    assert_eq!(core.get_lnc_tips(), vec![h]);

    // weights 2, 1, 1, 2: the total is 6 and the threshold is 4: weight 4 is not enough
    let (keys, mut core) = round_robin(4, &[2, 1, 1, 2]);
    core.insert_my_prop_or_solicit(0, keys[0], || b"x".to_vec()).unwrap();
    let h = core.proposals().key_at(0);
    core.insert_my_votes(keys[0]).unwrap();
    core.insert_my_votes(keys[3]).unwrap();
    assert!(!core.is_notarized(h));
    core.insert_my_votes(keys[1]).unwrap();
    assert!(core.is_notarized(h));
    // a stranger's vote is admitted and weighs nothing
    let stranger = SecretKey { bytes: tmelcrypt::Ed25519SK::generate().0 };
    assert_eq!(core.insert_vote(Vote::new(4, h, stranger)), Ok(()));
    assert_eq!(core.votes().len(), 4);
}

#[test]
fn a_later_weight_replaces_an_earlier_one() {
    let a = pair(0).to_public();
    let b = pair(1).to_public();
    let core = Core::new(0, vec![(a, 5), (b, 1), (a, 2)], move |_t: u64| a);
    assert_eq!(core.total_votes(), 3);
    assert_eq!(core.weights().get(&a), Some(&2));
    assert_eq!(core.weights().len(), 2);
}

#[test]
fn admitted_messages_keep_the_invariants() {
    let (keys, mut core) = round_robin(11, &[1, 1, 1, 1]);
    for tick in 0..6u64 {
        core.set_max_tick(tick + 1);
        for key in keys.iter() {
            core.insert_my_prop_or_solicit(tick, *key, || b"body".to_vec()).unwrap();
        }
        for key in keys.iter().take(3) {
            core.insert_my_votes(*key).unwrap();
        }
    }
    let mut seen: Vec<(u64, PublicKey)> = vec![];
    let mut ticks: BTreeMap<[u8; 32], u64> = BTreeMap::new();
    for i in 0..core.proposals().len() {
        let p = core.proposals().value_at(i);
        assert_eq!(core.proposals().key_at(i), p.chash());
        assert!(p.verify_sig());
        assert_eq!(p.nonce, 11);
        assert!(!seen.contains(&(p.tick, p.source)));
        seen.push((p.tick, p.source));
        ticks.insert(p.chash().to_bytes(), p.tick);
    }
    for i in 0..core.solicits().len() {
        let s = core.solicits().value_at(i);
        assert_eq!(core.solicits().key_at(i), s.chash());
        assert!(s.verify_sig());
        assert_eq!(s.nonce, 11);
        assert!(!seen.contains(&(s.tick, s.source)));
        seen.push((s.tick, s.source));
        assert!(!core.proposals().contains_key(&s.chash()));
        ticks.insert(s.chash().to_bytes(), s.tick);
    }
    for i in 0..core.solicits().len() {
        let s = core.solicits().value_at(i);
        let parent = ticks.get(&s.previous.to_bytes()).expect("the parent is admitted");
        assert!(*parent < s.tick);
        assert_eq!(core.lookup_len(s.chash()), core.lookup_len(s.previous) + 1);
    }
    for i in 0..core.votes().len() {
        let v = core.votes().value_at(i);
        assert_eq!(core.votes().key_at(i), v.chash());
        assert!(v.verify_sig());
        assert!(ticks.contains_key(&v.voting_for.to_bytes()));
    }
    assert!(core.solicits().len() >= 3);
    assert!(core.get_finalized().is_some());
    // the summary is the exclusive or of the hashes of the votes for each node
    let summary = core.summary();
    assert_eq!(summary.len(), core.proposals().len() + core.solicits().len());
    for i in 0..summary.len() {
        let node = summary.key_at(i);
        let mut mixed = HashVal { hi: 0, lo: 0 };
        for j in 0..core.votes().len() {
            if core.votes().value_at(j).voting_for == node {
                mixed = mixed.xor(&core.votes().key_at(j));
            }
        }
        assert_eq!(*summary.value_at(i), mixed);
    }
    // the tips are the notarized nodes that lie furthest from their roots
    let tips = core.get_lnc_tips();
    let longest = tips.iter().map(|t| core.lookup_len(*t)).max().unwrap();
    for i in 0..summary.len() {
        let node = summary.key_at(i);
        let is_tip = core.is_notarized(node) && core.lookup_len(node) == longest;
        assert_eq!(tips.contains(&node), is_tip);
        if core.is_notarized(node) {
            assert!(core.lookup_len(node) <= longest);
        }
    }
    for pair in tips.windows(2) {
        assert!(pair[0].less_than(&pair[1]));
    }
}

#[test]
fn offering_a_diff_twice_changes_nothing() {
    let (keys, mut a) = round_robin(11, &[1, 1, 1, 1]);
    let (_, mut b) = round_robin(11, &[1, 1, 1, 1]);
    for tick in 0..3u64 {
        a.set_max_tick(tick + 1);
        for key in keys.iter() {
            a.insert_my_prop_or_solicit(tick, *key, || b"body".to_vec()).unwrap();
            a.insert_my_votes(*key).unwrap();
        }
    }
    b.set_max_tick(3);
    let diff = a.get_diff(&b.summary());
    let copy: Vec<DiffMessage> = diff.iter().cloned().collect();
    for m in diff {
        assert_eq!(b.apply_one_diff(m), Ok(()));
    }
    let once = b.debug_graphviz();
    let votes_once = b.votes().len();
    for m in copy {
        match m {
            DiffMessage::Vote(_) => assert_eq!(b.apply_one_diff(m), Ok(())),
            _ => assert_eq!(b.apply_one_diff(m), Err(InsertError::Equivocation)),
        }
    }
    assert_eq!(b.debug_graphviz(), once);
    assert_eq!(b.votes().len(), votes_once);
    assert_eq!(b.debug_graphviz(), a.debug_graphviz());
    let (sa, sb) = (a.summary(), b.summary());
    assert_eq!(sa.len(), sb.len());
    for i in 0..sa.len() {
        assert_eq!(sa.key_at(i), sb.key_at(i));
        assert_eq!(sa.value_at(i), sb.value_at(i));
    }
}

#[test]
fn a_diff_holds_only_what_the_peer_lacks() {
    let (keys, mut a) = round_robin(11, &[1, 1, 1]);
    a.insert_my_prop_or_solicit(0, keys[0], || b"body".to_vec()).unwrap();
    let mut b = a.snapshot();
    a.insert_my_votes(keys[0]).unwrap();
    a.insert_my_votes(keys[1]).unwrap();
    // the peer knows the proposal and none of the votes
    let diff = a.get_diff(&b.summary());
    assert_eq!(diff.len(), 2);
    assert!(diff.iter().all(|m| matches!(m, DiffMessage::Vote(_))));
    // the peer knows one of two votes: both are sent
    b.insert_my_votes(keys[1]).unwrap();
    assert_eq!(a.get_diff(&b.summary()).len(), 2);
    // the peer knows nothing: the proposal comes first
    let (_, empty) = round_robin(11, &[1, 1, 1]);
    let all = a.get_diff(&empty.summary());
    assert_eq!(all.len(), 3);
    assert!(matches!(all[0], DiffMessage::Proposal(_)));
    // the peer knows everything
    b.insert_my_votes(keys[0]).unwrap();
    assert!(a.get_diff(&b.summary()).is_empty());
}

fn expected_leader(seed: u128, weights: &BTreeMap<tmelcrypt::Ed25519PK, u64>, tick: u64) -> [u8; 32] {
    let total_votes: u64 = weights.values().sum();
    let random_point = {
        let mut state = seed.wrapping_add(tick as u128);
        let mut point = u64::MAX;
        while point >= total_votes {
            let v = tmelcrypt::hash_single(&state.to_be_bytes());
            let mut first = [0u8; 16];
            first.copy_from_slice(&v.0[0..16]);
            state = u128::from_be_bytes(first);
            point = (state >> (total_votes as u128).leading_zeros()) as u64;
        }
        point
    };
    let mut sum = 0;
    for (pk, weight) in weights.iter() {
        sum += weight;
        if sum > random_point {
            return pk.0;
        }
    }
    unreachable!()
}

#[test]
fn the_lottery_draws_by_weight_from_the_hash_chain() {
    for (seed, weights) in [
        (0u128, vec![1u64, 1, 1]),
        (77, vec![5, 0, 2, 9]),
        (u128::MAX, vec![1, 1000, 1, 1]),
        (1 << 90, vec![u64::MAX / 2, 3]),
    ] {
        let mut table: OrderedMap<u64> = OrderedMap::new();
        let mut theirs = BTreeMap::new();
        for (i, w) in weights.iter().enumerate() {
            let key = pair(i).to_public();
            table.insert(key, *w);
            theirs.insert(tmelcrypt::Ed25519PK(key.to_bytes()), *w);
        }
        let lottery = Lottery::new(seed, table);
        let mut drawn = std::collections::BTreeSet::new();
        for tick in (0..40u64).chain([u64::MAX - 1, u64::MAX]) {
            let who = lottery.draw_leader(tick).expect("somebody leads");
            assert_eq!(who.to_bytes(), expected_leader(seed, &theirs, tick));
            assert_eq!(lottery.leader(tick), Some(who));
            drawn.insert(who.to_bytes());
        }
        if weights == vec![1u64, 1, 1] {
            assert_eq!(drawn.len(), 3);
        }
    }
    let nobody = Lottery::new(5, OrderedMap::new());
    assert_eq!(nobody.draw_leader(0), None);
    let mut weightless: OrderedMap<u64> = OrderedMap::new();
    weightless.insert(pair(0).to_public(), 0);
    assert_eq!(Lottery::new(5, weightless).draw_leader(3), None);
}

#[test]
fn the_running_sums_pick_a_participant() {
    let key = |n: u128| Bytes32 { hi: 0, lo: n };
    let mut table: OrderedMap<u64> = OrderedMap::new();
    table.insert(key(3), 2);
    table.insert(key(1), 5);
    table.insert(key(2), 0);
    let lottery = Lottery::new(9, table);
    let picked: Vec<Option<Bytes32>> = (0..8).map(|point| lottery.pick_at(point)).collect();
    let first = Some(key(1));
    let last = Some(key(3));
    assert_eq!(picked, vec![first, first, first, first, first, last, last, None]);
    assert_eq!(streamlette::schedule::count_bits(0), 0);
    assert_eq!(streamlette::schedule::count_bits(1), 1);
    assert_eq!(streamlette::schedule::count_bits(7), 3);
    assert_eq!(streamlette::schedule::count_bits(8), 4);
    assert_eq!(streamlette::schedule::count_bits(u128::MAX), 128);
    assert_eq!(streamlette::schedule::count_bits(u64::MAX as u128 + 1), 65);
}

#[test]
fn runs_of_three_are_found() {
    let found = |ticks: &[u64]| streamlette::chain::has_three_in_a_row(&ticks.to_vec());
    assert!(!found(&[]));
    assert!(!found(&[2, 1]));
    assert!(found(&[2, 1, 0]));
    assert!(!found(&[3, 2, 0]));
    assert!(!found(&[0, 1, 2]));
    assert!(found(&[9, 7, 6, 5, 2]));
    assert!(found(&[u64::MAX, u64::MAX - 1, u64::MAX - 2]));
    assert!(!found(&[u64::MAX, u64::MAX, u64::MAX - 1]));
    assert!(!found(&[5, 5, 4, 4, 3]));
}

#[test]
fn three_consecutive_ticks_decide() {
    let (keys, mut core) = round_robin(2, &[1]);
    let sk = keys[0];
    core.set_max_tick(10);
    let root = Proposal::new(2, 0, b"root".to_vec(), sk);
    let root_hash = root.chash();
    core.insert_proposal(root).unwrap();
    // ticks 0, 2, 3: no three in a row
    let first = Solicit::new(2, 2, root_hash, sk);
    let first_hash = first.chash();
    core.insert_solicit(first).unwrap();
    let second = Solicit::new(2, 3, first_hash, sk);
    let second_hash = second.chash();
    core.insert_solicit(second).unwrap();
    core.insert_vote(Vote::new(2, second_hash, sk)).unwrap();
    assert_eq!(core.get_lnc_tips(), vec![second_hash]);
    assert_eq!(core.lookup_len(second_hash), 2);
    assert!(core.get_finalized().is_none());
    // tick 4 on top: 4, 3, 2 are three in a row
    let third = Solicit::new(2, 4, second_hash, sk);
    let third_hash = third.chash();
    core.insert_solicit(third).unwrap();
    assert!(core.get_finalized().is_none());
    core.insert_vote(Vote::new(2, third_hash, sk)).unwrap();
    assert_eq!(core.get_lnc_tips(), vec![third_hash]);
    assert_eq!(core.get_finalized().unwrap().body, b"root".to_vec());
    assert_eq!(core.get_finalized().unwrap().chash(), root_hash);
}

enum WireMessage {
    Proposal(StructProposal),
    Solicit(StructSolicit),
    Vote(StructVote),
}

impl serde::Serialize for WireMessage {
    fn serialize<S: serde::Serializer>(&self, serializer: S) -> Result<S::Ok, S::Error> {
        match self {
            WireMessage::Proposal(p) => {
                serializer.serialize_newtype_variant("DiffMessage", 0, "Proposal", p)
            }
            WireMessage::Solicit(s) => {
                serializer.serialize_newtype_variant("DiffMessage", 1, "Solicit", s)
            }
            WireMessage::Vote(v) => serializer.serialize_newtype_variant("DiffMessage", 2, "Vote", v),
        }
    }
}

fn their_key(key: PublicKey) -> tmelcrypt::Ed25519PK {
    tmelcrypt::Ed25519PK(key.to_bytes())
}

fn their_hash(hash: HashVal) -> tmelcrypt::HashVal {
    tmelcrypt::HashVal(hash.to_bytes())
}

fn encode(message: &DiffMessage) -> Vec<u8> {
    let wire = match message {
        DiffMessage::Proposal(p) => WireMessage::Proposal(StructProposal {
            nonce: p.nonce,
            tick: p.tick,
            body: p.body.clone().into(),
            source: their_key(p.source),
            signature: p.signature.clone().into(),
        }),
        DiffMessage::Solicit(s) => WireMessage::Solicit(StructSolicit {
            nonce: s.nonce,
            tick: s.tick,
            previous: their_hash(s.previous),
            source: their_key(s.source),
            signature: s.signature.clone().into(),
        }),
        DiffMessage::Vote(v) => WireMessage::Vote(StructVote {
            nonce: v.nonce,
            voting_for: their_hash(v.voting_for),
            source: their_key(v.source),
            signature: v.signature.clone().into(),
        }),
    };
    stdcode::serialize(&wire).unwrap()
}

type ProposalFields = (u32, u128, u64, bytes::Bytes, tmelcrypt::Ed25519PK, bytes::Bytes);
type SolicitFields = (u32, u128, u64, tmelcrypt::HashVal, tmelcrypt::Ed25519PK, bytes::Bytes);
type VoteFields = (u32, u128, tmelcrypt::HashVal, tmelcrypt::Ed25519PK, bytes::Bytes);

fn decode(bytes: &[u8]) -> Option<DiffMessage> {
    match bytes.first()? {
        0 => {
            let (_, nonce, tick, body, source, signature) =
                stdcode::deserialize::<ProposalFields>(bytes).ok()?;
            Some(DiffMessage::Proposal(Proposal {
                nonce,
                tick,
                body: body.to_vec(),
                source: Bytes32::from_bytes(&source.0),
                signature: signature.to_vec(),
            }))
        }
        1 => {
            let (_, nonce, tick, previous, source, signature) =
                stdcode::deserialize::<SolicitFields>(bytes).ok()?;
            Some(DiffMessage::Solicit(Solicit {
                nonce,
                tick,
                previous: Bytes32::from_bytes(&previous.0),
                source: Bytes32::from_bytes(&source.0),
                signature: signature.to_vec(),
            }))
        }
        2 => {
            let (_, nonce, voting_for, source, signature) =
                stdcode::deserialize::<VoteFields>(bytes).ok()?;
            Some(DiffMessage::Vote(Vote {
                nonce,
                voting_for: Bytes32::from_bytes(&voting_for.0),
                source: Bytes32::from_bytes(&source.0),
                signature: signature.to_vec(),
            }))
        }
        _ => None,
    }
}

#[test]
fn diff_messages_survive_the_wire() {
    let (keys, mut a) = round_robin(1 << 70, &[1, 1, 1]);
    let (_, mut b) = round_robin(1 << 70, &[1, 1, 1]);
    for tick in 0..4u64 {
        a.set_max_tick(tick + 1);
        for key in keys.iter() {
            a.insert_my_prop_or_solicit(tick, *key, || vec![tick as u8; 300]).unwrap();
        }
        for key in keys.iter() {
            a.insert_my_votes(*key).unwrap();
        }
    }
    b.set_max_tick(4);
    let diff = a.get_diff(&b.summary());
    assert_eq!((a.proposals().len(), a.solicits().len(), a.votes().len()), (1, 3, 12));
    assert_eq!(diff.len(), 1 + 3 + 12);
    let mut tags = vec![];
    for message in diff {
        let bytes = encode(&message);
        tags.push(bytes[0]);
        let back = decode(&bytes).expect("what was written can be read");
        assert_eq!(encode(&back), bytes);
        match (&message, &back) {
            (DiffMessage::Proposal(x), DiffMessage::Proposal(y)) => {
                assert_eq!((x.nonce, x.tick, &x.body, x.source), (y.nonce, y.tick, &y.body, y.source));
                assert_eq!(x.signature, y.signature);
                assert_eq!(x.chash(), y.chash());
            }
            (DiffMessage::Solicit(x), DiffMessage::Solicit(y)) => {
                assert_eq!(
                    (x.nonce, x.tick, x.previous, x.source),
                    (y.nonce, y.tick, y.previous, y.source)
                );
                assert_eq!(x.signature, y.signature);
                assert_eq!(x.chash(), y.chash());
            }
            (DiffMessage::Vote(x), DiffMessage::Vote(y)) => {
                assert_eq!((x.nonce, x.voting_for, x.source), (y.nonce, y.voting_for, y.source));
                assert_eq!(x.signature, y.signature);
                assert_eq!(x.chash(), y.chash());
            }
            _ => panic!("the kind of the message changed"),
        }
        assert_eq!(b.apply_one_diff(back), Ok(()));
    }
    assert_eq!(tags, vec![0, 1, 1, 1, 2, 2, 2, 2, 2, 2, 2, 2, 2, 2, 2, 2]);
    assert_eq!(a.get_finalized().unwrap().body, vec![0u8; 300]);
    assert_eq!(b.get_finalized().unwrap().body, vec![0u8; 300]);
    assert!(decode(&[3, 0, 0]).is_none());
    assert!(decode(&[]).is_none());
    let mut trailing = encode(&DiffMessage::Vote(Vote::new(0, Bytes32 { hi: 0, lo: 0 }, keys[0])));
    trailing.push(0);
    assert!(decode(&trailing).is_none());
}

#[test]
fn graph_is_rendered_line_by_line() {
    let (keys, mut core) = round_robin(2, &[1]);
    let sk = keys[0];
    core.set_max_tick(1000);
    let root = Proposal::new(2, 7, vec![0xff, b'a', b'"', b'\n', 0xc3, 0xa9], sk);
    let root_hash = root.chash();
    core.insert_proposal(root).unwrap();
    let other = Proposal::new(2, 8, b"plain".to_vec(), sk);
    core.insert_proposal(other).unwrap();
    let first = Solicit::new(2, 12, root_hash, sk);
    let first_hash = first.chash();
    core.insert_solicit(first).unwrap();
    let second = Solicit::new(2, 345, first_hash, sk);
    core.insert_solicit(second).unwrap();
    core.insert_vote(Vote::new(2, first_hash, sk)).unwrap();
    assert_eq!(core.get_lnc_tips(), vec![first_hash]);

    let mut expected = String::from("digraph G {\n");
    for i in 0..core.proposals().len() {
        let h = their_hash(core.proposals().key_at(i));
        let prop = core.proposals().value_at(i);
        expected += &format!(
            "{:?} [label={:?}, shape=diamond];\n",
            h.to_string(),
            format!("{}", String::from_utf8_lossy(&prop.body))
        );
    }
    for i in 0..core.solicits().len() {
        let key = core.solicits().key_at(i);
        let h = their_hash(key);
        let solc = core.solicits().value_at(i);
        expected += &format!(
            "{:?} [label={:?}, shape=box, style=filled, fillcolor={}];\n",
            h.to_string(),
            &format!("{}[{}]", &h.to_string()[0..8], solc.tick),
            if key == first_hash { "aliceblue" } else { "whitesmoke" }
        );
        expected += &format!(
            "{:?} -> {:?};\n",
            h.to_string(),
            their_hash(solc.previous).to_string()
        );
    }
    expected += "}\n";
    assert_eq!(core.debug_graphviz(), expected);
    assert!(expected.contains("[12]"));
    assert!(expected.contains("[345]"));
    assert!(expected.contains("\\u{fffd}a\\\"\\n\u{e9}") || expected.contains("\u{fffd}a\\\"\\n\u{e9}"));
}
