use unidpp_signatif::device::{
    slot_standing, verify_reveal, DeviceCertificate, EdgeCommitment, RevealVerdict, SlotCredential,
    SlotStanding,
};
use unidpp_signatif::graph::{DelegationNode, NodeId, NodeKind, RegisteredKey, TrustGraph};
use unidpp_signatif::keyring::{KeyId, KeyPair};
use unidpp_signatif::sign::Suite;

fn graph_with(nodes: &[(&str, &KeyPair)]) -> TrustGraph {
    let mut graph = TrustGraph::new();
    for (id, key) in nodes {
        let mut node = DelegationNode::new(NodeId::new(id).unwrap(), NodeKind::Delegated);
        node.register(RegisteredKey {
            key_id: KeyId::of(key.public()),
            public: *key.public(),
        });
        graph.add_node(node);
    }
    graph
}

fn hex(bytes: &[u8]) -> String {
    bytes.iter().map(|b| format!("{b:02x}")).collect()
}

fn cast() -> (TrustGraph, KeyPair, KeyPair) {
    let maker = KeyPair::seeded(Suite::Ed25519, b"dev/maker").unwrap();
    let authority = KeyPair::seeded(Suite::Ed25519, b"dev/samr").unwrap();
    let graph = graph_with(&[("momiji", &maker), ("cn-samr", &authority)]);
    (graph, maker, authority)
}

fn slot_key() -> KeyPair {
    KeyPair::seeded(Suite::Ed25519, b"dev/slot-bms").unwrap()
}

// a segment attestation path-finds to its
// authority; revoking one slot-key chain kills only that
// segment's attestations.
#[test]
fn attestations_path_find_and_revocation_is_scoped() {
    let (graph, maker, authority) = cast();
    let slot = slot_key();

    // The manufacture-time certificate binds the device key to
    // the static segment's commitment.
    let static_commitment = [7u8; 32];
    let certificate = DeviceCertificate::issue(
        "urn:unidpp:device:pack-0001",
        &hex(slot.public().as_bytes()),
        "static",
        static_commitment,
        "momiji",
        &maker,
    )
    .unwrap();
    certificate.verify(&graph).unwrap();

    // The segment authority certifies the operational slot key
    // for ITS segment.
    let credential = SlotCredential::issue(
        "urn:unidpp:device:pack-0001",
        &hex(slot.public().as_bytes()),
        "cn-dynamic",
        "cn-samr",
        "2027-01-01T00:00:00Z",
        None,
        &authority,
    )
    .unwrap();

    // Path-finding: the attestation stands on the chain
    // (slot key → credential → authority).
    let mut credentials = vec![credential.clone()];
    match slot_standing(
        &credentials,
        "urn:unidpp:device:pack-0001",
        &hex(slot.public().as_bytes()),
        "cn-dynamic",
        &graph,
        &[],
    ) {
        SlotStanding::Certified { authority: a } => assert_eq!(a, "cn-samr"),
        other => panic!("expected certification, got {other:?}"),
    }

    // A slot claiming the WRONG segment is refused.
    match slot_standing(
        &credentials,
        "urn:unidpp:device:pack-0001",
        &hex(slot.public().as_bytes()),
        "eu-static",
        &graph,
        &[],
    ) {
        SlotStanding::NoChain { reason } => {
            assert!(reason.contains("not the claimed"), "{reason}")
        }
        other => panic!("expected refusal, got {other:?}"),
    }

    // Revoking the slot-key chain: only that segment dies — a
    // second slot (a different chain, same device) still
    // certifies its own segment.
    let other_slot = KeyPair::seeded(Suite::Ed25519, b"dev/slot-tpms").unwrap();
    let other_credential = SlotCredential::issue(
        "urn:unidpp:device:pack-0001",
        &hex(other_slot.public().as_bytes()),
        "eu-static",
        "cn-samr",
        "2027-01-01T00:00:00Z",
        None,
        &authority,
    )
    .unwrap();
    credentials.push(other_credential);
    let revoked = vec![hex(slot.public().as_bytes())];
    match slot_standing(
        &credentials,
        "urn:unidpp:device:pack-0001",
        &hex(slot.public().as_bytes()),
        "cn-dynamic",
        &graph,
        &revoked,
    ) {
        SlotStanding::Revoked { segment, slot_key } => {
            assert_eq!(segment, "cn-dynamic");
            assert_eq!(slot_key, hex(slot.public().as_bytes()));
        }
        other => panic!("expected revocation, got {other:?}"),
    }
    // The other chain is untouched.
    assert!(matches!(
        slot_standing(
            &credentials,
            "urn:unidpp:device:pack-0001",
            &hex(other_slot.public().as_bytes()),
            "eu-static",
            &graph,
            &revoked,
        ),
        SlotStanding::Certified { .. }
    ));

    // A forged credential fails the graph.
    let impostor = KeyPair::seeded(Suite::Ed25519, b"dev/impostor").unwrap();
    let forged = SlotCredential::issue(
        "urn:unidpp:device:pack-0001",
        &hex(slot.public().as_bytes()),
        "cn-dynamic",
        "cn-samr",
        "2027-01-01T00:00:00Z",
        None,
        &impostor,
    )
    .unwrap();
    match slot_standing(
        &[forged],
        "urn:unidpp:device:pack-0001",
        &hex(slot.public().as_bytes()),
        "cn-dynamic",
        &graph,
        &[],
    ) {
        SlotStanding::NoChain { reason } => {
            assert!(reason.contains("does not verify"), "{reason}")
        }
        other => panic!("expected refusal, got {other:?}"),
    }
}

// a reveal inconsistent with a prior commitment
// is rejected — commit now, reveal later, never contradict.
#[test]
fn contradictory_reveals_are_rejected() {
    let commitment = EdgeCommitment::commit(
        "urn:unidpp:device:pack-0001",
        "cn-dynamic",
        42,
        b"events 0..42 canonical bytes",
    );
    // The consistent reveal: same prefix, same bytes.
    assert_eq!(
        verify_reveal(&commitment, 42, b"events 0..42 canonical bytes"),
        RevealVerdict::Consistent
    );
    // A different state at the same length contradicts.
    match verify_reveal(&commitment, 42, b"events 0..42 edited bytes") {
        RevealVerdict::Contradicted { reason } => {
            assert!(reason.contains("never contradict"), "{reason}")
        }
        other => panic!("expected contradiction, got {other:?}"),
    }
    // A different length contradicts.
    assert!(matches!(
        verify_reveal(&commitment, 41, b"events 0..42 canonical bytes"),
        RevealVerdict::Contradicted { .. }
    ));
}
