use ed25519_dalek::Verifier as _;
use unidpp_signatif::threshold::material::PartialParts;
use unidpp_signatif::threshold::{
    combine, generate, hex32, nonce_point, sign, sign_partial, unhex32, verify, verify_share,
    GroupKey, GroupSignature, MemberShare, PartialSignature, ALGORITHM,
};

fn group_2_of_3() -> (GroupKey, Vec<MemberShare>) {
    generate(b"ceremony-test-seed", 2, 3).unwrap()
}

fn qualifying(
    group: &GroupKey,
    shares: &[&MemberShare],
    message: &[u8],
) -> Vec<PartialSignature> {
    // Round 1: nonce points.
    let nonces: Vec<(u32, String)> = shares
        .iter()
        .map(|share| (share.index, shares_of_nonce(share, message)))
        .collect();
    // Round 2: partials.
    shares
        .iter()
        .map(|share| sign_partial(group, share, message, &nonces).unwrap())
        .collect()
}

#[test]
fn shares_verify_and_the_group_key_matches_no_member() {
    let (group, shares) = group_2_of_3();
    assert_eq!(group.algorithm, ALGORITHM);
    assert_eq!(group.commitments.len(), 2);
    // C_0 is the group public key.
    assert_eq!(group.commitments[0], group.group_public);
    for share in &shares {
        assert!(
            verify_share(&group, share).unwrap(),
            "share {}",
            share.index
        );
    }
    // A tampered share fails verification.
    let mut bad = shares[0].clone();
    let mut bytes = unhex32(&bad.share).unwrap();
    bytes[0] ^= 0x01;
    bad.share = hex32(&bytes);
    assert!(!verify_share(&group, &bad).unwrap());
    // A share from a different group fails.
    let (other, _) = generate(b"other-seed", 2, 3).unwrap();
    assert!(!verify_share(&other, &shares[0]).unwrap());
}

#[test]
fn two_of_three_signing_round_trips_under_every_qualifying_pair() {
    let (group, shares) = group_2_of_3();
    let message = b"threshold root statement";
    for pair in [[0usize, 1], [0, 2], [1, 2]] {
        let set: Vec<&MemberShare> = pair.iter().map(|&i| &shares[i]).collect();
        let partials = qualifying(&group, &set, message);
        let signature = combine(&group, message, &partials).unwrap();
        assert_eq!(signature.signers.len(), 2);
        verify(&group, message, &signature).unwrap();
        // The combined signature is a *standard* Ed25519
        // signature under the group key.
        let public_bytes = unhex32(&group.group_public).unwrap();
        let vk = ed25519_dalek::VerifyingKey::from_bytes(&public_bytes).unwrap();
        let sig = ed25519_dalek::Signature::from_bytes(&signature.to_ed25519_bytes().unwrap());
        vk.verify(message, &sig).unwrap();
    }
    // A different qualifying set produces a different (equally
    // valid) signature: determinism is per-set.
    let a: Vec<&MemberShare> = vec![&shares[0], &shares[1]];
    let b: Vec<&MemberShare> = vec![&shares[0], &shares[2]];
    let sig_a = combine(&group, message, &qualifying(&group, &a, message)).unwrap();
    let sig_b = combine(&group, message, &qualifying(&group, &b, message)).unwrap();
    assert_ne!(sig_a.s, sig_b.s);
    verify(&group, message, &sig_a).unwrap();
    verify(&group, message, &sig_b).unwrap();
}

#[test]
fn fewer_than_threshold_partials_are_refused_everywhere() {
    let (group, shares) = group_2_of_3();
    let message = b"m";
    // One member alone cannot even contribute a partial against a
    // one-member qualifying set.
    let err = sign_partial(
        &group,
        &shares[0],
        message,
        &[(1, shares_of_nonce(&shares[0], message))],
    )
    .unwrap_err();
    assert!(err.to_string().contains("qualifying set needs 2"));
    // Combination with one partial refuses.
    let nonces = vec![shares_of_nonce(&shares[0], message)];
    let _ = nonces;
    let single = vec![PartialSignature {
        index: 1,
        nonce: shares_of_nonce(&shares[0], message),
        partial: "00".repeat(32),
    }];
    let err = combine(&group, message, &single).unwrap_err();
    assert!(err.to_string().contains("exactly 2 partials"));
}

fn shares_of_nonce(share: &MemberShare, message: &[u8]) -> String {
    nonce_point(share, message).unwrap()
}

#[test]
fn a_forged_partial_aborts_with_the_culprit_named() {
    let (group, shares) = group_2_of_3();
    let message = b"m";
    let set: Vec<&MemberShare> = vec![&shares[0], &shares[1]];
    let mut partials = qualifying(&group, &set, message);
    // Forging member 2's partial scalar.
    let mut bytes = unhex32(&partials[1].partial).unwrap();
    bytes[0] ^= 0x01;
    partials[1].partial = hex32(&bytes);
    let err = combine(&group, message, &partials).unwrap_err();
    assert!(err.to_string().contains("member 2"));
    assert!(err.to_string().contains("invalid partial"));
}

#[test]
fn tampered_signature_or_message_fails_verification() {
    let (group, shares) = group_2_of_3();
    let message = b"statement";
    let set: Vec<&MemberShare> = vec![&shares[0], &shares[1]];
    let signature = combine(&group, message, &qualifying(&group, &set, message)).unwrap();
    verify(&group, message, &signature).unwrap();
    // Different message.
    assert!(verify(&group, b"other statement", &signature).is_err());
    // Tampered s.
    let mut tampered = signature.clone();
    let mut bytes = unhex32(&tampered.s).unwrap();
    bytes[0] ^= 0x01;
    tampered.s = hex32(&bytes);
    assert!(verify(&group, message, &tampered).is_err());
    // A signature naming fewer signers than the threshold.
    let mut thin = signature.clone();
    thin.signers = vec![1];
    assert!(verify(&group, message, &thin).is_err());
}

#[test]
fn degenerate_quorums_are_refused() {
    assert!(generate(b"s", 0, 3).is_err());
    assert!(generate(b"s", 4, 3).is_err());
}

#[test]
fn ceremony_files_round_trip() {
    let (group, shares) = group_2_of_3();
    let text = group.to_json();
    assert_eq!(GroupKey::from_json(&text).unwrap(), group);
    let text = shares[0].to_json();
    assert_eq!(MemberShare::from_json(&text).unwrap(), shares[0]);
    let (group, shares) = group_2_of_3();
    let set: Vec<&MemberShare> = vec![&shares[0], &shares[1]];
    let signature = combine(&group, b"m", &qualifying(&group, &set, b"m")).unwrap();
    let text = signature.to_json();
    assert_eq!(GroupSignature::from_json(&text).unwrap(), signature);
    assert_eq!(signature.to_ed25519_bytes().unwrap().len(), 64);
}

#[test]
fn signing_in_one_call_agrees_with_the_rounds() {
    let (group, shares) = group_2_of_3();
    let message = b"in one call";
    let set: Vec<&MemberShare> = vec![&shares[0], &shares[2]];
    let by_rounds = combine(&group, message, &qualifying(&group, &set, message)).unwrap();
    let at_once = sign(&group, &[shares[0].clone(), shares[2].clone()], message).unwrap();
    assert_eq!(at_once, by_rounds);
    assert_eq!(at_once.signers, vec![1, 3]);
    verify(&group, message, &at_once).unwrap();
    let err = sign(&group, &[shares[0].clone()], message).unwrap_err();
    assert!(err.to_string().contains("exactly 2 shares (1 given)"));
}

#[test]
fn ceremony_files_name_what_is_wrong() {
    let err = GroupKey::from_json("{").unwrap_err().to_string();
    assert!(err.starts_with("validation error: group file: "), "{err}");
    let err = GroupKey::from_json("{}").unwrap_err().to_string();
    assert!(err.contains("group algorithm `` is not"), "{err}");
    let err = MemberShare::from_json("no json").unwrap_err().to_string();
    assert!(err.starts_with("validation error: share file: "), "{err}");
    let err = GroupSignature::from_json("").unwrap_err().to_string();
    assert!(err.starts_with("validation error: signature file: "), "{err}");
    let bare = MemberShare::from_json("{}").unwrap();
    assert_eq!((bare.index, bare.share.as_str()), (0, ""));
    let (group, _) = group_2_of_3();
    let err = verify_share(&group, &bare).unwrap_err().to_string();
    assert_eq!(err, "validation error: member index 0 is outside 1..=3");
}

#[test]
fn the_order_of_the_shares_does_not_matter() {
    let (group, shares) = generate(b"ceremony-test-seed", 3, 4).unwrap();
    let message = b"in any order";
    let forward = [shares[0].clone(), shares[2].clone(), shares[3].clone()];
    let shuffled = [shares[3].clone(), shares[0].clone(), shares[2].clone()];
    let a = sign(&group, &forward, message).unwrap();
    let b = sign(&group, &shuffled, message).unwrap();
    assert_eq!(a, b);
    assert_eq!(a.signers, vec![1, 3, 4]);
    let other = [shares[1].clone(), shares[2].clone(), shares[3].clone()];
    assert_ne!(a, sign(&group, &other, message).unwrap());
}

#[test]
fn partial_signatures_read_from_objects_and_arrays() {
    let p = PartialSignature {
        index: 2,
        nonce: "a\"\u{7}\u{e9}".into(),
        partial: "ff".into(),
    };
    assert_eq!(
        p.encode(),
        "{\"index\":2,\"nonce\":\"a\\\"\\u0007\u{e9}\",\"partial\":\"ff\"}".as_bytes()
    );
    assert_eq!(PartialSignature::decode(&p.encode()), Some(p.clone()));
    let plain = PartialSignature {
        index: 2,
        nonce: "n".into(),
        partial: "p".into(),
    };
    for text in [
        r#"{"index":2,"nonce":"n","partial":"p"}"#,
        " {\t\"partial\" : \"p\" ,\n\"index\":2, \"nonce\":\"\\u006e\"\r} ",
        r#"{"more":[1,{"index":3}],"index":2,"nonce":"n","more":null,"partial":"p"}"#,
        r#"{"lone":"\ud800","index":2,"nonce":"n","partial":"p"}"#,
        r#"[2,"n","p"]"#,
        r#" [ 2 , "n" , "p" ] "#,
    ] {
        assert_eq!(
            PartialSignature::decode(text.as_bytes()),
            Some(plain.clone()),
            "{text}"
        );
    }
    for text in [
        "",
        "  ",
        "{}",
        "[]",
        "2",
        "null",
        r#"{"index":2,"nonce":"n"}"#,
        r#"{"index":2,"nonce":"n","partial":"p","index":2}"#,
        r#"{"index":2,"nonce":"n","partial":"p","nonce":"n"}"#,
        r#"{"index":2,"nonce":"n","partial":"p","partial":"p"}"#,
        r#"{"index":"2","nonce":"n","partial":"p"}"#,
        r#"{"index":-2,"nonce":"n","partial":"p"}"#,
        r#"{"index":2.0,"nonce":"n","partial":"p"}"#,
        r#"{"index":4294967296,"nonce":"n","partial":"p"}"#,
        r#"{"index":2,"nonce":null,"partial":"p"}"#,
        r#"{"index":2,"nonce":"\ud800","partial":"p"}"#,
        r#"{"index":2,"nonce":"n","partial":"p",}"#,
        r#"{"index":2,"nonce":"n","partial":"p"} x"#,
        r#"{"index":2,"nonce":"n","partial":"p"]"#,
        r#"{"index":2 "nonce":"n","partial":"p"}"#,
        r#"{2:2,"index":2,"nonce":"n","partial":"p"}"#,
        r#"[2,"n"]"#,
        r#"[2,"n","p","q"]"#,
        r#"[2,"n","p",]"#,
        r#"["n",2,"p"]"#,
        r#"[2,"n","p"}"#,
    ] {
        assert_eq!(PartialSignature::decode(text.as_bytes()), None, "{text}");
    }
    // Bytes that are no text: in a part they fail, elsewhere they are passed over.
    let mut bytes = br#"{"index":2,"nonce":"?","partial":"p"}"#.to_vec();
    bytes[20] = 0xff;
    assert_eq!(PartialSignature::decode(&bytes), None);
    let mut bytes = br#"{"more":"?","index":2,"nonce":"n","partial":"p"}"#.to_vec();
    bytes[9] = 0xff;
    assert_eq!(PartialSignature::decode(&bytes), Some(plain));
}

#[test]
fn parts_of_a_partial_signature_come_once() {
    let parts = PartialParts::none()
        .with("index", Some(1), None)
        .unwrap()
        .with("other", None, None)
        .unwrap();
    assert_eq!(parts.index, Some(1));
    assert!(parts.with("index", Some(1), None).is_none());
    assert!(PartialParts::none()
        .with("nonce", Some(1), None)
        .is_none());
    assert!(PartialParts::none()
        .with("partial", None, Some("p".into()))
        .unwrap()
        .whole()
        .is_none());
}
