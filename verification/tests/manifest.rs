use unidpp_signatif::manifest::{
    AlgorithmStatus, DeploymentManifest, MigrationPhase, TopologyProfile,
};
use unidpp_signatif::maps::TextMap;
use unidpp_signatif::scope::LayerConstraint;
use unidpp_signatif::sign::{Suite, SuiteSet};
use unidpp_signatif::time::Timestamp;

fn t(secs: i64) -> Timestamp {
    Timestamp::from_secs(secs)
}

fn classical_only() -> SuiteSet {
    SuiteSet::of(&[Suite::Ed25519, Suite::EcdsaP256])
}

fn hybrid() -> SuiteSet {
    SuiteSet::of(&[Suite::Ed25519, Suite::MlDsa65])
}

fn manifest(active: SuiteSet, phase: MigrationPhase) -> DeploymentManifest {
    DeploymentManifest {
        version: "eu-2026-09".into(),
        operator: "EU-DPP-Registry".into(),
        active_algorithms: active,
        deprecated_algorithms: SuiteSet::new(),
        migration_phase: phase,
        topology_profile: TopologyProfile::Federated,
        scope_extensions: TextMap::new(),
        effective_from: t(1_000_000),
    }
}

#[test]
fn valid_manifests_pass_validation() {
    // Classical starting state.
    let m = manifest(classical_only(), MigrationPhase::Classical);
    assert!(m.validate().is_ok());
    // Hybrid co-signed: classical + PQ mix.
    assert!(manifest(hybrid(), MigrationPhase::HybridCoSigned)
        .validate()
        .is_ok());
    // Hybrid composite (the AND-composition form).
    assert!(manifest(hybrid(), MigrationPhase::HybridComposite)
        .validate()
        .is_ok());
    // Post-quantum end state.
    assert!(manifest(
        SuiteSet::of(&[Suite::MlDsa65, Suite::SlhDsa128s]),
        MigrationPhase::PostQuantum
    )
    .validate()
    .is_ok());
    // All four topology profiles are carried as data.
    for profile in [
        TopologyProfile::Hierarchical,
        TopologyProfile::Federated,
        TopologyProfile::CrossRecognized,
        TopologyProfile::Mesh,
    ] {
        assert!(profile.token().len() > 2);
    }
}

#[test]
fn validation_catches_each_rule_violation() {
    // Empty version.
    let mut m = manifest(classical_only(), MigrationPhase::Classical);
    m.version = "  ".into();
    assert!(m.validate().is_err());
    // No active algorithms.
    let m = manifest(SuiteSet::new(), MigrationPhase::Classical);
    assert!(m.validate().is_err());
    // Suite both active and deprecated.
    let mut m = manifest(classical_only(), MigrationPhase::Classical);
    m.deprecated_algorithms = SuiteSet::of(&[Suite::Ed25519]);
    let err = m.validate().unwrap_err().to_string();
    assert!(err.contains("ed25519"), "{err}");
    // Hybrid phase without a PQ algorithm.
    let err = manifest(classical_only(), MigrationPhase::HybridCoSigned)
        .validate()
        .unwrap_err()
        .to_string();
    assert!(err.contains("hybrid"), "{err}");
    // Hybrid phase without a classical algorithm.
    let err = manifest(
        SuiteSet::of(&[Suite::MlDsa65]),
        MigrationPhase::HybridComposite,
    )
    .validate()
    .unwrap_err()
    .to_string();
    assert!(err.contains("mixed"), "{err}");
    // Post-quantum phase with a classical algorithm still active.
    let err = manifest(hybrid(), MigrationPhase::PostQuantum)
        .validate()
        .unwrap_err()
        .to_string();
    assert!(err.contains("classical"), "{err}");
    // Contradictory scope extension.
    let mut m = manifest(classical_only(), MigrationPhase::Classical);
    m.scope_extensions
        .insert("market", LayerConstraint::only(&[]));
    assert!(m.validate().is_err());
    // Empty extension name.
    let mut m = manifest(classical_only(), MigrationPhase::Classical);
    m.scope_extensions.insert(" ", LayerConstraint::Any);
    assert!(m.validate().is_err());
}

#[test]
fn algorithm_status_and_deprecation_window() {
    let mut m = manifest(classical_only(), MigrationPhase::Classical);
    m.deprecated_algorithms = SuiteSet::of(&[Suite::Sm2]);
    assert_eq!(m.algorithm_status(Suite::Ed25519), AlgorithmStatus::Active);
    assert_eq!(m.algorithm_status(Suite::Sm2), AlgorithmStatus::Deprecated);
    assert_eq!(
        m.algorithm_status(Suite::MlDsa87),
        AlgorithmStatus::NotListed
    );
    assert_eq!(
        m.algorithm_status(Suite::SlhDsa192s),
        AlgorithmStatus::NotListed
    );
    // Deprecated is still verifiable (retirement window); unlisted
    // is not.
    assert!(m.accepts_verification(Suite::Sm2));
    assert!(!m.accepts_verification(Suite::MlDsa87));
}

#[test]
fn phases_and_topologies_parse_back() {
    for phase in [
        MigrationPhase::Classical,
        MigrationPhase::HybridCoSigned,
        MigrationPhase::HybridComposite,
        MigrationPhase::PostQuantum,
    ] {
        assert_eq!(MigrationPhase::parse_token(phase.token()).unwrap(), phase);
    }
    for profile in [
        TopologyProfile::Hierarchical,
        TopologyProfile::Federated,
        TopologyProfile::CrossRecognized,
        TopologyProfile::Mesh,
    ] {
        assert_eq!(
            TopologyProfile::parse_token(profile.token()).unwrap(),
            profile
        );
    }
    assert!(MigrationPhase::parse_token("quantum").is_err());
    assert!(TopologyProfile::parse_token("star").is_err());
}
