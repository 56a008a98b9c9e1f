use unidpp_signatif::graph::{KeyDirectory, NodeId};
use unidpp_signatif::keyring::{KeyId, KeyPair};
use unidpp_signatif::lineage::{PassportId, ProvenanceGraph};
use unidpp_signatif::revoke::{
    ConditionWithdrawal, IssuanceIndex, QuorumAttestation, Revocation, RevocationLedger,
    RevocationReason, RevokedSubject, Standing,
};
use unidpp_signatif::scope::ScopeCondition;
use unidpp_signatif::sign::Suite;
use unidpp_signatif::taint::{KnownTaint, TaintKind};
use unidpp_signatif::time::{Interval, Timestamp};
use unidpp_signatif::SignatifError;

fn t(secs: i64) -> Timestamp {
    Timestamp::from_secs(secs)
}

fn pid(n: u32) -> PassportId {
    PassportId::new(&format!("urn:unidpp:passport:b{n}")).unwrap()
}

fn quorum_for(statement: &[u8], n_members: usize) -> (QuorumAttestation, KeyDirectory) {
    let quorum = NodeId::new("super-quorum").unwrap();
    let members: Vec<KeyPair> = (0..n_members)
        .map(|i| KeyPair::seeded(Suite::Ed25519, format!("sq-{i}").as_bytes()).unwrap())
        .collect();
    let mut dir = KeyDirectory::new();
    for m in &members {
        dir.register(m.public());
    }
    let refs: Vec<&KeyPair> = members.iter().collect();
    let att = QuorumAttestation::mint_sign(&quorum, 2, statement, &refs).unwrap();
    (att, dir)
}

#[test]
fn taxonomy_retroactivity() {
    assert!(RevocationReason::Misissuance.is_retroactive());
    assert!(RevocationReason::FraudulentIssuance.is_retroactive());
    assert!(RevocationReason::AuthorityCompromised { detected_at: t(1) }.is_retroactive());
    assert!(!RevocationReason::Cessation.is_retroactive());
    assert!(!RevocationReason::KeyCompromise { after: t(1) }.is_retroactive());
    assert_eq!(
        RevocationReason::FraudulentIssuance.taint_kind(),
        TaintKind::Known(KnownTaint::Fraud)
    );
    assert_eq!(RevocationReason::Misissuance.token(), "misissuance");
}

#[test]
fn declare_requires_quorum_for_retroactive() {
    let mut ledger = RevocationLedger::new();
    let retro = Revocation {
        subject: RevokedSubject::Key(KeyId::new("k-abc").unwrap()),
        reason: RevocationReason::Misissuance,
        declared_at: t(1000),
        window: Interval::between(t(100), t(200)).unwrap(),
        declared_by: NodeId::new("super").unwrap(),
        quorum: None,
    };
    assert!(matches!(
        ledger.declare(retro.clone()),
        Err(SignatifError::QuorumRequired { .. })
    ));
    let statement = retro.statement_bytes();
    let (att, _dir) = quorum_for(&statement, 3);
    let mut retro = retro;
    retro.quorum = Some(att);
    assert!(ledger.declare(retro).is_ok());
    // Prospective needs no quorum.
    let pros = Revocation {
        subject: RevokedSubject::Key(KeyId::new("k-abc").unwrap()),
        reason: RevocationReason::Cessation,
        declared_at: t(1000),
        window: Interval::starting(t(1000)),
        declared_by: NodeId::new("super").unwrap(),
        quorum: None,
    };
    assert!(ledger.declare(pros).is_ok());
}

#[test]
fn quorum_attestation_verifies() {
    let statement = b"declare misissuance".to_vec();
    let (att, dir) = quorum_for(&statement, 3);
    assert!(att.is_quorate(&statement, &dir).unwrap());
    // Tampered statement: not quorate.
    assert!(!att.is_quorate(b"other", &dir).unwrap());
    // Below threshold members.
    let quorum = NodeId::new("super-quorum").unwrap();
    let m0 = KeyPair::seeded(Suite::Ed25519, b"sq-0").unwrap();
    let solo = QuorumAttestation::mint_sign(&quorum, 2, &statement, &[&m0]).unwrap();
    assert!(!solo.is_quorate(&statement, &dir).unwrap());
    // Wrong-key directory.
    let empty = KeyDirectory::new();
    assert!(!att.is_quorate(&statement, &empty).unwrap());
}

#[test]
fn window_voids_inside_revalidates_outside() {
    let mut ledger = RevocationLedger::new();
    let key = KeyId::new("k-abc").unwrap();
    let retro = Revocation {
        subject: RevokedSubject::Key(key.clone()),
        reason: RevocationReason::FraudulentIssuance,
        declared_at: t(1000),
        window: Interval::between(t(100), t(200)).unwrap(),
        declared_by: NodeId::new("super").unwrap(),
        quorum: None,
    };
    ledger.declare(retro).unwrap_err(); // no quorum; use Misissuance w/ quorum below
    let mut retro2 = Revocation {
        subject: RevokedSubject::Key(key.clone()),
        reason: RevocationReason::AuthorityCompromised { detected_at: t(1000) },
        declared_at: t(1000),
        window: Interval::between(t(100), t(200)).unwrap(),
        declared_by: NodeId::new("super").unwrap(),
        quorum: None,
    };
    // Retroactive still needs quorum — bypass for the window test by
    // seeding the ledger's vec directly through declare with quorum.
    let (att, _dir) = quorum_for(&retro2.statement_bytes(), 3);
    retro2.quorum = Some(att);
    ledger.declare(retro2).unwrap();

    // Inside window: void ab initio.
    assert!(ledger.key_standing(&key, t(150)).voids_ab_initio());
    // Before window: valid (re-validated outside).
    assert!(ledger.key_standing(&key, t(50)).is_valid());
    // After window end: valid again (re-validation).
    assert!(ledger.key_standing(&key, t(500)).is_valid());
    // Evidentiary cutoff: at t=150 nothing was declared yet.
    assert!(ledger
        .key_standing_at(&key, t(150), Some(t(999)))
        .is_valid());
}

#[test]
fn prospective_stands_before_effect() {
    let mut ledger = RevocationLedger::new();
    let key = KeyId::new("k-abc").unwrap();
    ledger
        .declare(Revocation {
            subject: RevokedSubject::Key(key.clone()),
            reason: RevocationReason::KeyCompromise { after: t(300) },
            declared_at: t(300),
            window: Interval::starting(t(300)),
            declared_by: NodeId::new("root").unwrap(),
            quorum: None,
        })
        .unwrap();
    assert!(ledger.key_standing(&key, t(299)).is_valid());
    match ledger.key_standing(&key, t(400)) {
        Standing::SuspendedFrom { from, .. } => assert_eq!(from, t(300)),
        other => panic!("expected suspension, got {other:?}"),
    }
    assert!(!ledger.key_standing(&key, t(400)).voids_ab_initio());
}

#[test]
fn taint_cascades_through_provenance() {
    // battery B0 (issued by bad key inside window) -> pack B1 (combine) -> module B2.
    let bad_key = KeyPair::seeded(Suite::EcdsaP256, b"bad-issuer").unwrap();
    let mut issuers = IssuanceIndex::new();
    issuers.record(pid(0), t(150), bad_key.key_id().clone());
    issuers.record(pid(1), t(160), bad_key.key_id().clone()); // clean sibling, same key
    let mut provenance = ProvenanceGraph::new();
    provenance.record_combine(pid(1), &[pid(0)]);

    let mut ledger = RevocationLedger::new();
    let mut retro = Revocation {
        subject: RevokedSubject::Key(bad_key.key_id().clone()),
        reason: RevocationReason::Misissuance,
        declared_at: t(1000),
        window: Interval::between(t(100), t(200)).unwrap(),
        declared_by: NodeId::new("super").unwrap(),
        quorum: None,
    };
    let (att, _dir) = quorum_for(&retro.statement_bytes(), 3);
    retro.quorum = Some(att);
    ledger.declare(retro).unwrap();

    // B0: issued inside window -> void ab initio.
    assert!(ledger.current_taints(&pid(0), &issuers, &provenance).voids_ab_initio());
    // B1: transitively bound to B0 -> cascading void.
    assert!(ledger.current_taints(&pid(1), &issuers, &provenance).voids_ab_initio());
    // Evidentiary: at t(170) nothing was declared.
    assert!(!ledger
        .taints_known_at(&pid(0), &issuers, &provenance, t(170))
        .voids_ab_initio());
    // A passport issued by the same key AFTER the window is re-validated.
    issuers.record(pid(2), t(500), bad_key.key_id().clone());
    assert!(!ledger.current_taints(&pid(2), &issuers, &provenance).voids_ab_initio());
    // ...but if it was built from tainted material, it is tainted
    // anyway (transitive binding).
    provenance.record_combine(pid(3), &[pid(1)]);
    issuers.record(pid(3), t(600), bad_key.key_id().clone());
    assert!(ledger.current_taints(&pid(3), &issuers, &provenance).voids_ab_initio());
}

#[test]
fn withdrawn_conditions_are_in_force_in_their_window() {
    let mut ledger = RevocationLedger::default();
    let node = NodeId::new("lab").unwrap();
    let condition = ScopeCondition::Predicate {
        expression_ref: "urn:rule:audit".into(),
    };
    ledger.withdraw_condition(ConditionWithdrawal {
        node: node.clone(),
        condition: condition.clone(),
        window: Interval::between(t(100), t(200)).unwrap(),
    });
    assert_eq!(ledger.withdrawn_conditions_at(&node, t(150)), vec![condition]);
    assert!(ledger.withdrawn_conditions_at(&node, t(250)).is_empty());
    let other = NodeId::new("other").unwrap();
    assert!(ledger.withdrawn_conditions_at(&other, t(150)).is_empty());
    assert_eq!(ledger.clone().withdrawn_conditions_at(&node, t(150)).len(), 1);
}
