use unidpp_signatif::anchor::{
    external_anchor_payload, leaf_hash, mth, node_hash, path_recursive, salted_commitment, split,
    sub_proof, verify_consistency, verify_external_anchor, verify_inclusion, verify_master_quorum,
    ExternalAnchorMethod, InclusionProof, LogEntry, LogOfLogs, TransparencyLog,
};
use unidpp_signatif::digest::{sha256, Hash32};
use unidpp_signatif::keyring::KeyPair;
use unidpp_signatif::sign::Suite;
use unidpp_signatif::time::Timestamp;
use unidpp_signatif::SignatifError;

/// A raw entry commitment.
fn entry(i: u8) -> Hash32 {
    sha256(&[i])
}

/// Leaf hashes of the first `n` entries.
fn leaves(n: u8) -> Vec<Hash32> {
    (0..n).map(|i| leaf_hash(&entry(i))).collect()
}

/// Entry commitments for `n` entries.
fn entries(n: u8) -> Vec<Hash32> {
    (0..n).map(entry).collect()
}

fn seeded(suite: Suite, seed: &[u8]) -> KeyPair {
    KeyPair::seeded(suite, seed).ok().unwrap()
}

#[test]
fn split_points() {
    assert_eq!(split(2), 1);
    assert_eq!(split(3), 2);
    assert_eq!(split(4), 2);
    assert_eq!(split(5), 4);
    assert_eq!(split(8), 4);
    assert_eq!(split(9), 8);
    assert_eq!(split(1023), 512);
    assert_eq!(split(1024), 512);
    assert_eq!(split(1025), 1024);
}

#[test]
fn hand_computed_small_roots() {
    // n=1: root = the single leaf hash H(0x01 || entry0).
    let l1 = leaves(1);
    assert_eq!(mth(&l1), Some(leaf_hash(&entry(0))));
    // n=2: root = H(0x02 || MTH(l0) || MTH(l1)) with MTH(li)=H(0x01||li).
    let l2 = leaves(2);
    assert_eq!(mth(&l2), Some(node_hash(&l2[0], &l2[1])));
    // n=3: root = H(0x02 || MTH(D[0:2]) || MTH(D[2:3]))
    let l3 = leaves(3);
    assert_eq!(
        mth(&l3),
        Some(node_hash(&mth(&l3[..2]).unwrap(), &mth(&l3[2..]).unwrap()))
    );
    assert_eq!(mth(&[]), None);
}

#[test]
fn inclusion_all_positions_all_sizes() {
    for n in 1..=17u8 {
        let lv = leaves(n);
        let raw = entries(n);
        let root = mth(&lv).unwrap();
        for i in 0..n as u64 {
            let mut path = Vec::new();
            path_recursive(i, &lv, &mut path);
            let proof = InclusionProof {
                leaf_index: i,
                tree_size: n as u64,
                path,
            };
            assert!(
                verify_inclusion(&raw[i as usize], &proof, &root).is_ok(),
                "inclusion {i}/{n} must verify"
            );
            // Any other leaf fails.
            if n > 1 {
                let wrong = raw[((i + 1) % n as u64) as usize];
                assert!(verify_inclusion(&wrong, &proof, &root).is_err());
            }
        }
    }
}

#[test]
fn inclusion_tamper_detection() {
    let mut log = TransparencyLog::new("tlog");
    for i in 0..9u8 {
        log.append(LogEntry::public(sha256(&[i])));
    }
    let root = log.root().unwrap();
    let proof = log.inclusion_proof(4).unwrap();
    assert!(verify_inclusion(&log.entry(4).unwrap().commitment, &proof, &root).is_ok());
    // Flip one commitment elsewhere in the log: entry 4's proof
    // still reconstructs, but against a DIFFERENT root — the pinned
    // root catches it.
    let mut tampered = log.clone();
    tampered.entries_tamper_for_test(7, sha256(b"x"));
    let new_root = tampered.root().unwrap();
    assert_ne!(root, new_root);
    assert!(verify_inclusion(&log.entry(4).unwrap().commitment, &proof, &new_root).is_err());
    // Truncation (dropping the tail) is caught by STH/root pinning.
    let mut truncated = log.clone();
    truncated.truncate_for_test();
    assert!(verify_inclusion(
        &log.entry(4).unwrap().commitment,
        &truncated.inclusion_proof(4).unwrap(),
        &root
    )
    .is_err());
}

#[test]
fn consistency_all_pairs() {
    for n in 1..=17usize {
        let lv = leaves(n as u8);
        for m in 1..=n {
            let old_root = mth(&lv[..m]).unwrap();
            let new_root = mth(&lv).unwrap();
            let mut path = Vec::new();
            sub_proof(m as u64, &lv, true, &mut path);
            assert!(
                verify_consistency(m as u64, &old_root, n as u64, &new_root, &path).is_ok(),
                "consistency {m}->{n} must verify"
            );
            // Corrupt the old root.
            let bad_old = sha256(b"nope");
            assert!(verify_consistency(m as u64, &bad_old, n as u64, &new_root, &path).is_err());
            // Corrupt the new root.
            assert!(verify_consistency(m as u64, &old_root, n as u64, &bad_old, &path).is_err());
            // Truncate the proof.
            if !path.is_empty() {
                assert!(verify_consistency(
                    m as u64,
                    &old_root,
                    n as u64,
                    &new_root,
                    &path[..path.len() - 1]
                )
                .is_err());
            }
        }
    }
}

#[test]
fn log_level_proofs_match_recursive() {
    let mut log = TransparencyLog::new("t");
    for i in 0..6u8 {
        log.append(LogEntry::public(sha256(&[i])));
    }
    for seq in 0..6u64 {
        let proof = log.inclusion_proof(seq).unwrap();
        assert_eq!(proof.tree_size, 6);
        assert!(verify_inclusion(
            &log.entry(seq).unwrap().commitment,
            &proof,
            &log.root().unwrap()
        )
        .is_ok());
    }
    for old in 1..=6u64 {
        let p = log.consistency_proof(old).unwrap();
        let old_root = log.root_at_size(old).unwrap();
        assert!(verify_consistency(old, &old_root, 6, &log.root().unwrap(), &p.path).is_ok());
    }
    assert!(log.consistency_proof(7).is_err());
    assert!(matches!(
        log.inclusion_proof(6),
        Err(SignatifError::Transparency(_))
    ));
}

#[test]
fn sth_sign_and_verify() {
    let mut log = TransparencyLog::new("t");
    for i in 0..4u8 {
        log.append(LogEntry::public(sha256(&[i])));
    }
    let operator = seeded(Suite::Ed25519, b"op");
    let sth = log
        .sign_tree_head(Timestamp::from_secs(1234), &operator)
        .unwrap();
    assert!(sth.verify(operator.public()).is_ok());
    // Different operator.
    let other = seeded(Suite::EcdsaP256, b"op2");
    assert!(sth.verify(other.public()).is_err());
    // Tampered root.
    let mut bad = sth.clone();
    bad.root = sha256(b"evil");
    assert!(bad.verify(operator.public()).is_err());
    // The pinned STH stays valid for its prefix after the log
    // grows (that is what consistency proofs are for)...
    let old_root = sth.root;
    log.append(LogEntry::public(sha256(b"extra")));
    assert!(log.verify_size_against(&sth).is_ok());
    // ...but the current head moves on, and the 4->5 consistency
    // proof ties the pinned root to the new head.
    let new_root = log.root().unwrap();
    assert_ne!(old_root, new_root);
    let sth2 = log
        .sign_tree_head(Timestamp::from_secs(1235), &operator)
        .unwrap();
    assert_eq!(sth2.root, new_root);
    assert_ne!(sth.root, sth2.root);
    let proof = log.consistency_proof(4).unwrap();
    assert!(verify_consistency(4, &old_root, 5, &new_root, &proof.path).is_ok());
}

#[test]
fn log_of_logs_master_quorum() {
    let mk = |id: &str, seed: &[u8]| -> (TransparencyLog, KeyPair) {
        let mut log = TransparencyLog::new(id);
        for i in 0..3u8 {
            let mut data = id.as_bytes().to_vec();
            data.push(i);
            log.append(LogEntry::public(sha256(&data)));
        }
        (log, seeded(Suite::Ed25519, seed))
    };
    let (w1, k1) = mk("witness-1", b"w1");
    let (w2, k2) = mk("witness-2", b"w2");
    let (w3, k3) = mk("witness-3", b"w3");
    let at = Timestamp::from_secs(10);
    let sth1 = w1.sign_tree_head(at, &k1).unwrap();
    let sth2 = w2.sign_tree_head(at, &k2).unwrap();
    let sth3 = w3.sign_tree_head(at, &k3).unwrap();

    let mut lol = LogOfLogs::new(2, 3);
    lol.append_witness_sth(&sth1);
    lol.append_witness_sth(&sth2);
    lol.append_witness_sth(&sth3);
    let master_root = lol.root().unwrap();

    let items = vec![
        (
            sth1.clone(),
            *k1.public(),
            lol.witness_proof(&sth1).unwrap(),
        ),
        (
            sth2.clone(),
            *k2.public(),
            lol.witness_proof(&sth2).unwrap(),
        ),
        (
            sth3.clone(),
            *k3.public(),
            lol.witness_proof(&sth3).unwrap(),
        ),
    ];
    assert!(verify_master_quorum(&master_root, &items, 3).unwrap());
    // 2-of-3 holds with one witness dropped.
    assert!(verify_master_quorum(&master_root, &items[..2], 2).unwrap());
    // Not 3-of-2.
    assert!(!verify_master_quorum(&master_root, &items[..2], 3).unwrap());
    // Wrong master root fails.
    let bad_root = sha256(b"evil");
    assert!(verify_master_quorum(&bad_root, &items, 2).is_err());
    // The same witness attesting twice does not double-count: the
    // distinct-log set is keyed by log id.
    let dupe = vec![
        (
            sth1.clone(),
            *k1.public(),
            lol.witness_proof(&sth1).unwrap(),
        ),
        (
            sth1.clone(),
            *k1.public(),
            lol.witness_proof(&sth1).unwrap(),
        ),
    ];
    assert!(!verify_master_quorum(&master_root, &dupe, 2).unwrap());
}

#[test]
fn salted_commitments_never_expose_facts() {
    let c1 = salted_commitment(b"urn:unidpp:passport:car-42", &[1u8; 32]);
    let c2 = salted_commitment(b"urn:unidpp:passport:car-42", &[2u8; 32]);
    assert_ne!(c1, c2);
    let c3 = salted_commitment(b"urn:unidpp:passport:car-43", &[1u8; 32]);
    assert_ne!(c1, c3);
    // The log stores only the commitment + an opaque salt ref.
    let mut log = TransparencyLog::new("t");
    log.append(LogEntry::salted(c1, 0));
    log.append(LogEntry::salted(c2, 1));
    let shown = format!("{log:?}");
    assert!(!shown.contains("car-42"));
    assert!(shown.contains("salt_ref: Some(0)"));
}

#[test]
fn external_anchors_commit_to_the_head() {
    let mut log = TransparencyLog::new("t");
    log.append(LogEntry::public(sha256(b"a")));
    let operator = seeded(Suite::Ed25519, b"op");
    let sth = log
        .sign_tree_head(Timestamp::from_secs(7), &operator)
        .unwrap();
    let tsq = external_anchor_payload(&sth, ExternalAnchorMethod::Rfc3161);
    assert_eq!(tsq.payload.len(), 59);
    assert_eq!(&tsq.payload[24..56], tsq.digest.as_bytes().as_slice());
    assert!(verify_external_anchor(&sth, &tsq).is_ok());
    let ots = external_anchor_payload(
        &sth,
        ExternalAnchorMethod::OtsLite {
            rendezvous: "https://ots.example".to_string(),
        },
    );
    assert!(verify_external_anchor(&sth, &ots).is_ok());
    log.append(LogEntry::public(sha256(b"b")));
    let later = log
        .sign_tree_head(Timestamp::from_secs(8), &operator)
        .unwrap();
    assert!(verify_external_anchor(&later, &tsq).is_err());
    let mut edited = ots.clone();
    edited.payload[0] ^= 1;
    assert!(verify_external_anchor(&sth, &edited).is_err());
}

// Between two sizes a consistency proof has one length.
#[test]
fn consistency_proofs_take_no_more_nodes_and_no_fewer() {
    let lv = leaves(11);
    let new_root = mth(&lv).unwrap();
    for m in 1..=11usize {
        let old_root = mth(&lv[..m]).unwrap();
        let mut path = Vec::new();
        sub_proof(m as u64, &lv, true, &mut path);
        let mut longer = path.clone();
        longer.push(entry(0));
        assert!(verify_consistency(m as u64, &old_root, 11, &new_root, &longer).is_err());
        for cut in 0..path.len() {
            assert!(
                verify_consistency(m as u64, &old_root, 11, &new_root, &path[..cut]).is_err()
            );
        }
    }
}
