use streamlette::{Core, InsertError, Message, Proposal, PublicKey, SecretKey, Solicit, Vote};

fn keypair() -> SecretKey {
    SecretKey { bytes: tmelcrypt::Ed25519SK::generate().0 }
}

#[test]
fn chash_is_the_hash_of_the_canonical_bytes() {
    let sk = keypair();
    let p = Proposal::new(7, 3, b"hello".to_vec(), sk);
    let pk = tmelcrypt::Ed25519PK(p.source.to_bytes());
    let expected = tmelcrypt::hash_single(stdcode::serialize(&(
        7u128,
        3u64,
        bytes::Bytes::from_static(b"hello"),
        pk,
        bytes::Bytes::new(),
    ))
    .unwrap());
    assert_eq!(p.chash().to_bytes(), expected.0);
    assert!(p.verify_sig());
    assert_eq!(p.signature.len(), 64);
    assert!(pk.verify(&expected.0, &p.signature));
}

#[test]
fn proposal_then_equivocation() {
    let sk = keypair();
    let pk: PublicKey = sk.to_public();
    let mut core = Core::new(0, vec![(pk, 1)], move |_t: u64| pk);
    let p = Proposal::new(0, 0, b"a".to_vec(), sk);
    let h = p.chash();
    assert_eq!(core.insert_proposal(p), Ok(()));
    let q = Proposal::new(0, 0, b"b".to_vec(), sk);
    assert_eq!(core.insert_proposal(q), Err(InsertError::Equivocation));
    let s = Solicit::new(0, 1, h, sk);
    assert_eq!(core.insert_solicit(s), Ok(()));
    let late = Solicit::new(0, 2, h, sk);
    assert_eq!(core.insert_solicit(late), Err(InsertError::TickBeyondHorizon));
    let v = Vote::new(0, h, sk);
    assert_eq!(core.insert_vote(v.clone()), Ok(()));
    assert_eq!(core.insert_vote(v), Ok(()));
}
