use secp256k1::rand::thread_rng;
use secp256k1::{Message, Secp256k1, SecretKey};
use turnstone::contract::Contract;
use turnstone::crypto::hash;
use turnstone::error::ContractError;
use turnstone::msg::{ConsensusMsg, InstantiateMsg, Validator};
use turnstone::validation::{is_signed, PubKey, Signature};

fn gen_keys() -> (SecretKey, PubKey) {
    let secp = Secp256k1::new();
    let (privkey, pubkey) = secp.generate_keypair(&mut thread_rng());
    let pubkey = PubKey(pubkey.serialize().to_vec());
    (privkey, pubkey)
}

fn sign(keys: &[(SecretKey, PubKey)], message_id: &str, raw_json: &str) -> Vec<Signature> {
    let secp = Secp256k1::new();
    keys.iter()
        .map(|(privkey, pubkey)| Signature {
            pubkey: PubKey(pubkey.0.clone()),
            signature: secp
                .sign_ecdsa(
                    &Message::from_slice(&hash(message_id, raw_json)).unwrap(),
                    privkey,
                )
                .serialize_compact()
                .to_vec(),
        })
        .collect()
}

#[test]
fn simple_validation() {
    let mut base_message_id: u64 = 0xBA5EBA11 - 1;
    let mut mid = move || -> String {
        base_message_id += 1;
        format!("{:x}", base_message_id)
    };

    let addresses: Vec<&str> = vec![
        "aaa", "bbb", "ccc", "ddd", "eee", "fff", "ggg", "hhh", "iii", "jjj",
    ];
    let non_validator = "eve";
    let keys: Vec<_> = addresses.iter().map(|_| gen_keys()).collect();

    let mut c = Contract::instantiate(&InstantiateMsg {
        valset: addresses
            .iter()
            .zip(&keys)
            .map(|(addr, (_, pubkey))| Validator {
                public_key: PubKey(pubkey.0.clone()),
                stake: 10,
                address: vec![addr.to_string()],
            })
            .collect(),
    })
    .unwrap();

    let valid_json = r#"{"stub": {}}"#;
    let t = |c: &mut Contract, addr: &str, message_id: &str, keys: &[(SecretKey, PubKey)]| {
        let signatures = sign(keys, message_id, valid_json);
        c.execute_consensus(
            addr,
            message_id,
            valid_json,
            &signatures,
            &ConsensusMsg::Stub {},
        )
    };

    // No messages validate with less than quorum. Exactly half is not quorum.
    for addr in [addresses[0], non_validator] {
        for n in 0..=5 {
            assert!(t(&mut c, addr, &mid(), &keys[..n]).is_err());
        }
    }
    // Non trusted addresses never work.
    for n in 0..=keys.len() {
        assert_eq!(
            t(&mut c, non_validator, &mid(), &keys[..n]),
            Err(ContractError::UntrustedSender)
        );
    }
    // Trusted addresses do, if they have enough signatures.
    for addr in &addresses {
        for n in 6..10 {
            t(&mut c, addr, &mid(), &keys[..n]).unwrap();
        }
    }
    // But not if you try to reuse an id!
    t(&mut c, addresses[0], "😠", &keys).unwrap();
    assert_eq!(
        t(&mut c, addresses[0], "😠", &keys),
        Err(ContractError::Replay)
    );

    // And if you change the valset...
    let new_addr = "new_hotness";
    let (privkey, pubkey) = gen_keys();
    let update_json = r#"{"update_valset": {"valset": [{"stake": "100"}]}}"#;
    let message_id = mid();
    let signatures = sign(&keys, &message_id, update_json);
    c.execute_consensus(
        addresses[0],
        &message_id,
        update_json,
        &signatures,
        &ConsensusMsg::UpdateValset {
            valset: vec![Validator {
                public_key: PubKey(pubkey.0.clone()),
                stake: 100,
                address: vec![new_addr.to_string()],
            }],
        },
    )
    .unwrap();

    // Then they can sign new messages
    let id = mid();
    let signatures = sign(&[(privkey, pubkey)], &id, valid_json);
    c.execute_consensus(new_addr, &id, valid_json, &signatures, &ConsensusMsg::Stub {})
        .unwrap();
    // But others can't.
    let id = mid();
    let signatures = sign(&keys, &id, valid_json);
    assert!(c
        .execute_consensus(addresses[0], &id, valid_json, &signatures, &ConsensusMsg::Stub {})
        .is_err());
}

#[test]
fn quorum_needs_a_strict_majority_of_stake() {
    // Five real validators of stake 10 each (total 50) among ten known
    // keypairs. Three signatures carry 30 > 25: quorum. Two carry 20: no
    // quorum, and unknown keys add nothing.
    let keys: Vec<_> = (0..10).map(|_| gen_keys()).collect();
    let validators: Vec<_> = keys[..5]
        .iter()
        .enumerate()
        .map(|(i, (_, pubkey))| Validator {
            public_key: PubKey(pubkey.0.clone()),
            stake: 10,
            address: vec![format!("val{}", i)],
        })
        .collect();
    let mut c = Contract::instantiate(&InstantiateMsg { valset: validators }).unwrap();

    let payload = r#"{"stub": {}}"#;

    let sigs = sign(&keys[..3], "m1", payload);
    c.execute_consensus("val0", "m1", payload, &sigs, &ConsensusMsg::Stub {})
        .unwrap();

    let sigs = sign(&keys[..2], "m2", payload);
    assert_eq!(
        c.execute_consensus("val0", "m2", payload, &sigs, &ConsensusMsg::Stub {}),
        Err(ContractError::QuorumNotMet)
    );

    // Signatures from the five unknown keys never help.
    let sigs = sign(&keys[3..], "m3", payload);
    assert_eq!(
        c.execute_consensus("val0", "m3", payload, &sigs, &ConsensusMsg::Stub {}),
        Err(ContractError::QuorumNotMet)
    );
}

#[test]
fn exactly_half_the_stake_is_not_quorum() {
    // Two validators of stake 10; one signature contributes exactly half the
    // total and must be refused.
    let keys: Vec<_> = (0..2).map(|_| gen_keys()).collect();
    let validators: Vec<_> = keys
        .iter()
        .enumerate()
        .map(|(i, (_, pubkey))| Validator {
            public_key: PubKey(pubkey.0.clone()),
            stake: 10,
            address: vec![format!("val{}", i)],
        })
        .collect();
    let mut c = Contract::instantiate(&InstantiateMsg { valset: validators }).unwrap();

    let payload = "half";
    let sigs = sign(&keys[..1], "m1", payload);
    assert_eq!(
        c.execute_consensus("val0", "m1", payload, &sigs, &ConsensusMsg::Stub {}),
        Err(ContractError::QuorumNotMet)
    );
    // Both signatures carry the full stake, which is a strict majority.
    let sigs = sign(&keys, "m2", payload);
    c.execute_consensus("val0", "m2", payload, &sigs, &ConsensusMsg::Stub {})
        .unwrap();
}

#[test]
fn a_failed_privileged_action_keeps_the_id_usable() {
    // The update asks for a validator set whose stake sum overflows, so the
    // action fails after authorization; the id must stay usable.
    let keys: Vec<_> = (0..1).map(|_| gen_keys()).collect();
    let validators: Vec<_> = keys
        .iter()
        .map(|(_, pubkey)| Validator {
            public_key: PubKey(pubkey.0.clone()),
            stake: 10,
            address: vec!["val0".to_string()],
        })
        .collect();
    let mut c = Contract::instantiate(&InstantiateMsg { valset: validators }).unwrap();

    let payload = "overflowing update";
    let (_, huge1) = gen_keys();
    let (_, huge2) = gen_keys();
    let bad_valset = vec![
        Validator { public_key: huge1, stake: u128::MAX, address: vec!["h1".to_string()] },
        Validator { public_key: huge2, stake: u128::MAX, address: vec!["h2".to_string()] },
    ];
    let sigs = sign(&keys, "id1", payload);
    assert_eq!(
        c.execute_consensus(
            "val0",
            "id1",
            payload,
            &sigs,
            &ConsensusMsg::UpdateValset { valset: bad_valset },
        ),
        Err(ContractError::ArithmeticOverflow)
    );

    // The same id still works for a well-formed action.
    let sigs = sign(&keys, "id1", payload);
    c.execute_consensus("val0", "id1", payload, &sigs, &ConsensusMsg::Stub {})
        .unwrap();
}

#[test]
fn unreadable_signatures_fail_the_check() {
    let keys: Vec<_> = (0..1).map(|_| gen_keys()).collect();
    let valset: Vec<_> = keys
        .iter()
        .map(|(_, pubkey)| Validator {
            public_key: PubKey(pubkey.0.clone()),
            stake: 10,
            address: vec!["val0".to_string()],
        })
        .collect();
    let mut c = Contract::instantiate(&InstantiateMsg { valset }).unwrap();

    // A known public key with a signature that is not 64 bytes long: the
    // primitive cannot read it, and the whole request fails.
    let garbled = vec![Signature { pubkey: PubKey(keys[0].1 .0.clone()), signature: vec![1, 2, 3] }];
    assert_eq!(
        c.execute_consensus("val0", "id", "payload", &garbled, &ConsensusMsg::Stub {}),
        Err(ContractError::MalformedSignature)
    );
}

#[test]
fn overstaked_instantiation_is_rejected() {
    let (_, pk1) = gen_keys();
    let (_, pk2) = gen_keys();
    let valset = vec![
        Validator { public_key: pk1, stake: u128::MAX, address: vec!["a".to_string()] },
        Validator { public_key: pk2, stake: 1, address: vec!["b".to_string()] },
    ];
    assert!(matches!(
        Contract::instantiate(&InstantiateMsg { valset }),
        Err(ContractError::ArithmeticOverflow)
    ));
}

#[test]
fn the_digest_binds_payload_and_id() {
    // The signed digest is 32 bytes and depends on both fields.
    let d1 = hash("id", "payload");
    let d2 = hash("id", "payload");
    let d3 = hash("di", "payload");
    let d4 = hash("id", "payloae");
    assert_eq!(d1.len(), 32);
    assert_eq!(d1, d2);
    assert_ne!(d1, d3);
    assert_ne!(d1, d4);
}

#[test]
fn unknown_signers_are_discarded_by_is_signed() {
    let keys: Vec<_> = (0..2).map(|_| gen_keys()).collect();

    // Call the verifier directly through its public face: one known signer
    // is a strict majority; only the unknown signer is not.
    let stored = vec![turnstone::validation::ValKey {
        pubkey: PubKey(keys[0].1 .0.clone()),
        stake: 10,
    }];
    let good = sign(&keys[..1], "id", "p");
    assert_eq!(is_signed(&stored, "id", "p", &good), Ok(true));
    let unknown_only = sign(&keys[1..], "id", "p");
    assert_eq!(is_signed(&stored, "id", "p", &unknown_only), Ok(false));
}
