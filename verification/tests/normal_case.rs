use streamlette::{Core, PublicKey, SecretKey};

#[test]
fn normal_case() {
    let players: Vec<SecretKey> = (0..10)
        .map(|_| SecretKey { bytes: tmelcrypt::Ed25519SK::generate().0 })
        .collect();
    let weights: Vec<(PublicKey, u64)> = players.iter().map(|p| (p.to_public(), 1)).collect();
    let mut core = Core::new(0, weights, {
        let players = players.clone();
        move |i: u64| players[(i as usize) % players.len()].to_public()
    });
    let mut finalized_at = None;
    for tick in 0.. {
        if tick > 100 {
            panic!("took too long to finalize");
        }
        core.set_max_tick(tick + 1);
        for (pno, my_sk) in players.iter().copied().enumerate() {
            core.insert_my_prop_or_solicit(tick, my_sk, || format!("prop-{}", pno).into_bytes())
                .expect("could not insert my OWN proposal!");
        }
        for my_sk in players.iter().copied() {
            if fastrand::f64() > 0.3 {
                core.insert_my_votes(my_sk)
                    .expect("own vote could not be inserted");
            }
        }
        if let Some(_v) = core.get_finalized() {
            println!("FINALIZED!!!!");
            finalized_at = Some(tick);
            break;
        }
    }
    assert!(finalized_at.is_some());
    println!("{}", core.debug_graphviz());
}

#[test]
fn graph_of_a_small_state() {
    let sk = SecretKey { bytes: tmelcrypt::Ed25519SK::generate().0 };
    let pk = sk.to_public();
    let mut core = Core::new(0, vec![(pk, 1)], move |_t: u64| pk);
    core.insert_my_prop_or_solicit(0, sk, || b"he\"llo".to_vec()).unwrap();
    core.insert_my_votes(sk).unwrap();
    core.insert_my_prop_or_solicit(1, sk, || b"unused".to_vec()).unwrap();
    let text = core.debug_graphviz();
    println!("{}", text);
    let tips = core.get_lnc_tips();
    assert_eq!(tips.len(), 1);
    let root = tmelcrypt::HashVal(tips[0].to_bytes()).to_string();
    assert!(text.starts_with("digraph G {\n"));
    assert!(text.ends_with("}\n"));
    assert!(text.contains(&format!("{:?} [label=\"he\\\"llo\", shape=diamond];\n", root)));
    assert!(text.contains(&format!(" -> {:?};\n", root)));
    assert!(text.contains(&format!("[1]\", shape=box, style=filled, fillcolor=whitesmoke];\n")));
}
