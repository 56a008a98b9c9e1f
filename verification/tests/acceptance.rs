use unidpp_signatif::acceptance::{AcceptancePolicy, TruthMode};
use unidpp_signatif::graph::NodeId;
use unidpp_signatif::keyring::KeyPair;
use unidpp_signatif::maps::TextMap;
use unidpp_signatif::sign::Suite;
use unidpp_signatif::sovereign::{
    AttestationStatement, ClaimClass, CoverageGrade, SovereignAttestation,
};

fn attestation() -> SovereignAttestation {
    let service = KeyPair::seeded(Suite::Ed25519, b"cn-attestation-service").unwrap();
    let a = KeyPair::seeded(Suite::Ed25519, b"cn-a").unwrap();
    let b = KeyPair::seeded(Suite::Ed25519, b"cn-b").unwrap();
    let statement = AttestationStatement {
        segment: "cn-dynamic".into(),
        state_commitment: [0x42; 32],
        claim: ClaimClass::Conformity,
        value: "pass".into(),
        as_of: "2030-06-01T08:00:00Z".into(),
        governing_policy: "cn-dynamic-bms".into(),
        governing_policy_version: 1,
        subject: "urn:unidpp:passport:pack-0001".into(),
    };
    let quorum = NodeId::new("cn-attestation-quorum").unwrap();
    SovereignAttestation::issue(
        statement,
        "cn-attestation-service",
        &service,
        Some((&quorum, 2, &[&a, &b])),
    )
    .unwrap()
}

// the same evidence, two profiles, two different
// — both correct — verdicts.
#[test]
fn same_evidence_two_profiles_two_verdicts() {
    let attestation = attestation();
    let now = "2030-06-01T08:30:00Z";

    let accepting = AcceptancePolicy {
        profile: "urn:unidpp:profile:eu-battery".into(),
        attestation_services: vec!["cn-attestation-service".into()],
        accepted_claims: vec![ClaimClass::Conformity, ClaimClass::Freshness],
        minimum_quorum: 2,
        max_age_secs: Some(3600),
        element_modes: TextMap::new(),
    };
    let strict = AcceptancePolicy {
        profile: "urn:unidpp:profile:eu-battery-strict".into(),
        attestation_services: vec![], // anchors no CN service
        accepted_claims: vec![],
        minimum_quorum: 3,
        max_age_secs: None,
        element_modes: TextMap::new(),
    };

    assert_eq!(
        accepting.grade(&attestation, "cycle-count", now),
        CoverageGrade::AttestedByAuthority
    );
    assert_eq!(
        strict.grade(&attestation, "cycle-count", now),
        CoverageGrade::ExplicitlyUnavailable,
        "an unanchored service is not evidence, however valid"
    );
}

// Per-element truth mode: a require-direct element refuses the
// same attestation a sibling element accepts.
#[test]
fn per_element_truth_mode_gates_the_same_evidence() {
    let attestation = attestation();
    let mut modes = TextMap::new();
    modes.insert("origin-and-vintage", TruthMode::RequireDirect);
    let policy = AcceptancePolicy {
        profile: "p".into(),
        attestation_services: vec!["cn-attestation-service".into()],
        accepted_claims: vec![ClaimClass::Conformity],
        minimum_quorum: 2,
        max_age_secs: None,
        element_modes: modes,
    };
    let now = "2030-06-01T08:00:00Z";
    assert_eq!(
        policy.grade(&attestation, "cycle-count", now),
        CoverageGrade::AttestedByAuthority
    );
    assert_eq!(
        policy.grade(&attestation, "origin-and-vintage", now),
        CoverageGrade::ExplicitlyUnavailable
    );
}

// Each acceptance dimension refuses on its own: claim class,
// quorum strength, freshness.
#[test]
fn claim_quorum_and_freshness_each_refuse_alone() {
    let attestation = attestation();
    let now = "2030-06-01T08:30:00Z";

    let wrong_claim = AcceptancePolicy {
        accepted_claims: vec![ClaimClass::Freshness], // conformity not accepted
        ..base()
    };
    assert_eq!(
        wrong_claim.grade(&attestation, "cycle-count", now),
        CoverageGrade::ExplicitlyUnavailable
    );

    let weak_quorum = AcceptancePolicy {
        minimum_quorum: 3, // the attestation carries 2-of-3
        ..base()
    };
    assert_eq!(
        weak_quorum.grade(&attestation, "cycle-count", now),
        CoverageGrade::ExplicitlyUnavailable
    );

    let stale = AcceptancePolicy {
        max_age_secs: Some(60), // 30 minutes old
        ..base()
    };
    assert_eq!(
        stale.grade(&attestation, "cycle-count", now),
        CoverageGrade::ExplicitlyUnavailable
    );

    assert_eq!(
        base().grade(&attestation, "cycle-count", now),
        CoverageGrade::AttestedByAuthority
    );
}

fn base() -> AcceptancePolicy {
    AcceptancePolicy {
        profile: "p".into(),
        attestation_services: vec!["cn-attestation-service".into()],
        accepted_claims: vec![ClaimClass::Conformity],
        minimum_quorum: 2,
        max_age_secs: None,
        element_modes: TextMap::new(),
    }
}
