use unidpp_signatif::graph::{DelegationNode, NodeId, NodeKind, RegisteredKey, TrustGraph};
use unidpp_signatif::keyring::{KeyId, KeyPair};
use unidpp_signatif::sign::{SignatureSlot, Suite};
use unidpp_signatif::sovereign::{
    AttestationStatement, ClaimClass, CoverageGrade, SovereignAttestation,
};

fn graph_with(nodes: &[(&str, &KeyPair)]) -> TrustGraph {
    let mut graph = TrustGraph::new();
    for (id, key) in nodes {
        let mut node = DelegationNode::new(NodeId::new(id).unwrap(), NodeKind::Delegated);
        node.register(RegisteredKey {
            key_id: KeyId::of(key.public()),
            public: *key.public(),
        });
        graph.add_node(node);
    }
    graph
}

fn statement(claim: ClaimClass) -> AttestationStatement {
    AttestationStatement {
        segment: "cn-dynamic".into(),
        state_commitment: [7u8; 32],
        claim,
        value: "pass".into(),
        as_of: "2030-06-01T08:00:00Z".into(),
        governing_policy: "cn-dynamic-bms".into(),
        governing_policy_version: 1,
        subject: "urn:unidpp:passport:pack-0001".into(),
    }
}

#[test]
fn sealed_substitution_verifies_under_the_verifiers_own_anchors() {
    let service = KeyPair::seeded(Suite::Ed25519, b"cn-attestation-service").unwrap();
    let members = [
        KeyPair::seeded(Suite::Ed25519, b"cn-a").unwrap(),
        KeyPair::seeded(Suite::Ed25519, b"cn-b").unwrap(),
    ];
    let graph = graph_with(&[
        ("cn-attestation-service", &service),
        ("cn-a", &members[0]),
        ("cn-b", &members[1]),
    ]);
    let quorum_id = NodeId::new("cn-attestation-quorum").unwrap();
    let attestation = SovereignAttestation::issue(
        statement(ClaimClass::Conformity),
        "cn-attestation-service",
        &service,
        Some((&quorum_id, 2, &[&members[0], &members[1]])),
    )
    .unwrap();
    let grade = attestation.verify(&graph).unwrap();
    assert_eq!(grade, CoverageGrade::AttestedByAuthority);

    // The statement carries no facts: only the commitment.
    let shown = format!("{:?}", attestation.statement);
    assert!(
        !shown.contains("voltage") && !shown.contains("cycle_count"),
        "{shown}"
    );
}

#[test]
fn high_stakes_without_quorum_refused_low_stakes_dont_need_it() {
    let service = KeyPair::seeded(Suite::Ed25519, b"cn-attestation-service").unwrap();
    let graph = graph_with(&[("cn-attestation-service", &service)]);

    // High-stakes without a quorum: refused at ISSUE time.
    let err = SovereignAttestation::issue(
        statement(ClaimClass::Conformity),
        "cn-attestation-service",
        &service,
        None,
    );
    assert!(err.is_err());

    // Low-stakes: fine, verifies to the same grade.
    let attestation = SovereignAttestation::issue(
        statement(ClaimClass::Freshness),
        "cn-attestation-service",
        &service,
        None,
    )
    .unwrap();
    assert_eq!(
        attestation.verify(&graph).unwrap(),
        CoverageGrade::AttestedByAuthority
    );
    assert!(attestation.quorum.is_none());
}

// CN-3's signature-side pin: the same statement bytes signed in
// the QUORUM domain (the old confusion) do not verify as a
// sovereign attestation — domains are disjoint, and the
// co-signature does not substitute for the service's own.
#[test]
fn cross_domain_signature_substitution_fails() {
    let service = KeyPair::seeded(Suite::Ed25519, b"cn-attestation-service").unwrap();
    let graph = graph_with(&[("cn-attestation-service", &service)]);
    let mut attestation = SovereignAttestation::issue(
        statement(ClaimClass::Freshness),
        "cn-attestation-service",
        &service,
        None,
    )
    .unwrap();
    assert!(attestation.verify(&graph).is_ok());
    // Re-sign the same bytes in the Quorum domain: refused.
    attestation.signature = SignatureSlot::sign(
        &service,
        unidpp_signatif::sign::SigningDomain::Quorum,
        &attestation.statement.canonical_bytes(),
    )
    .unwrap();
    assert!(attestation.verify(&graph).is_err());
}

#[test]
fn wrong_service_and_tampered_statements_fail() {
    let service = KeyPair::seeded(Suite::Ed25519, b"cn-attestation-service").unwrap();
    let impostor = KeyPair::seeded(Suite::Ed25519, b"impostor").unwrap();
    let graph = graph_with(&[("cn-attestation-service", &service)]);

    let foreign = SovereignAttestation::issue(
        statement(ClaimClass::Freshness),
        "cn-attestation-service",
        &impostor,
        None,
    )
    .unwrap();
    assert!(foreign.verify(&graph).is_err());

    let mut tampered = SovereignAttestation::issue(
        statement(ClaimClass::Freshness),
        "cn-attestation-service",
        &service,
        None,
    )
    .unwrap();
    tampered.statement.value = "fail".into(); // verdict swap under the signature
    assert!(tampered.verify(&graph).is_err());
}
