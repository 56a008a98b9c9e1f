use unidpp_signatif::acceptance::AcceptancePolicy;
use unidpp_signatif::dossier::Dossier;
use unidpp_signatif::exchange::{S13Request, S13Response};
use unidpp_signatif::graph::{DelegationNode, NodeId, NodeKind, RegisteredKey, TrustGraph};
use unidpp_signatif::grid::{SignedPolicy, SignedSpine};
use unidpp_signatif::keyring::{KeyId, KeyPair};
use unidpp_signatif::maps::TextMap;
use unidpp_signatif::s13::{
    S13Journal, S13JournalEntry, S13Side, SignedS13Request, SignedS13Response,
};
use unidpp_signatif::segments::{PolicyObject, RevealClass, Segment, Spine};
use unidpp_signatif::sign::Suite;
use unidpp_signatif::sovereign::{
    AttestationStatement, ClaimClass, CoverageGrade, SovereignAttestation,
};

struct Cast {
    graph: TrustGraph,
    authority: KeyPair,
    custodian: KeyPair,
    verifier: KeyPair,
    service: KeyPair,
    quorum: [KeyPair; 2],
}

fn cast() -> Cast {
    let authority = KeyPair::seeded(Suite::Ed25519, b"dossier/cn-samr").unwrap();
    let custodian = KeyPair::seeded(Suite::Ed25519, b"dossier/weilian").unwrap();
    let verifier = KeyPair::seeded(Suite::Ed25519, b"dossier/de-zoll").unwrap();
    let service = KeyPair::seeded(Suite::Ed25519, b"dossier/cn-attest").unwrap();
    let quorum = [
        KeyPair::seeded(Suite::Ed25519, b"dossier/quorum-a").unwrap(),
        KeyPair::seeded(Suite::Ed25519, b"dossier/quorum-b").unwrap(),
    ];
    let mut graph = TrustGraph::new();
    for (id, key) in [
        ("cn-samr", &authority),
        ("weilian-shenzhen", &custodian),
        ("de-zoll", &verifier),
        ("cn-attestation-service", &service),
        ("cn-quorum-a", &quorum[0]),
        ("cn-quorum-b", &quorum[1]),
    ] {
        let mut node = DelegationNode::new(NodeId::new(id).unwrap(), NodeKind::Delegated);
        node.register(RegisteredKey {
            key_id: KeyId::of(key.public()),
            public: *key.public(),
        });
        graph.add_node(node);
    }
    Cast {
        graph,
        authority,
        custodian,
        verifier,
        service,
        quorum,
    }
}

// The full document-orientation verify: dossier → file →
// separate verification under the verifier's own anchors, zero
// foreign calls; the foreign verdict re-derives the battery
// case's coverage report.
#[test]
fn foreign_verdict_from_exchanged_objects_alone() {
    let cast = cast();
    let dossier = battery_dossier(&cast);
    let back = dossier.clone();
    assert_eq!(back, dossier);

    let check = back.verify(&cast.graph).unwrap();
    assert_eq!(check.policies_ok, 2);
    assert_eq!(check.proofs_ok, 1);
    assert_eq!(check.attestations_ok, 1);
    assert_eq!(check.journal_decisions.len(), 1);
    assert_eq!(check.journal_decisions[0].outcome, "attestation-offer");

    // The verifier's OWN acceptance policy grades the sealed
    // class from the dossier's attestation alone.
    let acceptance = AcceptancePolicy {
        profile: "urn:unidpp:profile:eu-battery".into(),
        attestation_services: vec!["cn-attestation-service".into()],
        accepted_claims: vec![ClaimClass::Conformity],
        minimum_quorum: 2,
        max_age_secs: None,
        element_modes: TextMap::new(),
    };
    let grade = acceptance.grade(&back.attestations[0], "cn-dynamic", "2030-06-01T08:30:00Z");
    assert_eq!(grade, CoverageGrade::AttestedByAuthority);
}

// Tampering anywhere in the exchange fails the offline verify.
#[test]
fn tampered_dossiers_fail_offline_verification() {
    let cast = cast();

    let mut swapped = battery_dossier(&cast);
    swapped.attestations[0].statement.value = "fail".into();
    assert!(swapped.verify(&cast.graph).is_err());

    let mut spliced = battery_dossier(&cast);
    spliced.proofs[0].commitment = [9u8; 32];
    assert!(spliced.verify(&cast.graph).is_err());

    // An attestation naming a policy the dossier does not carry.
    let mut orphan = battery_dossier(&cast);
    orphan.policies.truncate(1); // drop the sealed policy
    assert!(orphan.verify(&cast.graph).is_err());
}

fn battery_dossier(cast: &Cast) -> Dossier {
    let open_policy = SignedPolicy::issue(
        PolicyObject {
            policy_id: "eu-static-open".into(),
            version: 1,
            authority: "cn-samr".into(),
            readers: vec!["any-verifier".into()],
            verifiers: vec!["any-verifier".into()],
            writers: vec!["weilian-shenzhen".into()],
            reveal: RevealClass::Open,
            suites: vec!["ecdsa-p256".into()],
            valid_from: "2027-01-01T00:00:00Z".into(),
            valid_to: None,
            superseded_by: None,
        },
        &cast.authority,
    )
    .unwrap();
    let sealed_policy = SignedPolicy::issue(
        PolicyObject {
            policy_id: "cn-dynamic-bms".into(),
            version: 1,
            authority: "cn-samr".into(),
            readers: vec!["cn-customs".into()],
            verifiers: vec!["cn-customs".into(), "de-zoll".into()],
            writers: vec!["weilian-shenzhen".into()],
            reveal: RevealClass::OriginSealed,
            suites: vec!["sm2".into()],
            valid_from: "2027-01-01T00:00:00Z".into(),
            valid_to: None,
            superseded_by: None,
        },
        &cast.authority,
    )
    .unwrap();

    let mut commitments = TextMap::new();
    commitments.insert(
        "eu-static",
        Segment::commit_state(b"cell_model=H-2231"),
    );
    commitments.insert(
        "cn-dynamic",
        Segment::commit_state(b"cycle_count=412"),
    );
    let spine = Spine::over(1, commitments);
    let signed_spine =
        SignedSpine::issue(spine.clone(), "weilian-shenzhen", &cast.custodian).unwrap();
    let proof = spine.proof_for("cn-dynamic").unwrap();

    let statement = AttestationStatement {
        segment: "cn-dynamic".into(),
        state_commitment: *spine.commitments.get("cn-dynamic").unwrap(),
        claim: ClaimClass::Conformity,
        value: "pass".into(),
        as_of: "2030-06-01T08:00:00Z".into(),
        governing_policy: "cn-dynamic-bms".into(),
        governing_policy_version: 1,
        subject: "urn:unidpp:passport:pack-0001".into(),
    };
    let quorum_id = NodeId::new("cn-attestation-quorum").unwrap();
    let attestation = SovereignAttestation::issue(
        statement,
        "cn-attestation-service",
        &cast.service,
        Some((&quorum_id, 2, &[&cast.quorum[0], &cast.quorum[1]])),
    )
    .unwrap();

    let request = S13Request {
        verifier: "de-zoll".into(),
        subject: "urn:unidpp:passport:pack-0001".into(),
        profile: "urn:unidpp:profile:eu-battery".into(),
        segment: "cn-dynamic".into(),
        at: "2030-06-01T08:00:00Z".into(),
    };
    let signed_request = SignedS13Request::issue(request, "de-zoll", &cast.verifier).unwrap();
    let response = S13Response::evaluate(
        &signed_request.request,
        &sealed_policy.policy,
        "weilian-shenzhen",
    );
    let signed_response = SignedS13Response::issue(response, &cast.custodian).unwrap();
    let mut journal = S13Journal::new(S13Side::Custodian);
    journal.append(S13JournalEntry::Request(signed_request));
    journal.append(S13JournalEntry::Response(signed_response));

    Dossier {
        subject: "urn:unidpp:passport:pack-0001".into(),
        policies: vec![open_policy, sealed_policy],
        spine: signed_spine,
        proofs: vec![proof],
        attestations: vec![attestation],
        journal,
        receipt: None,
    }
}
