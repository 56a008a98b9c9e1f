use unidpp_signatif::anchor::{LogEntry, TransparencyLog};
use unidpp_signatif::digest::sha256;
use unidpp_signatif::graph::{
    AnchorBundle, DelegationCredential, DelegationNode, MasterList, MasterListEntry, NodeId,
    NodeKind, RegisteredKey, TrustGraph, TrustList, WitnessAttestation,
};
use unidpp_signatif::keyring::KeyPair;
use unidpp_signatif::lineage::{PassportId, ProvenanceGraph};
use unidpp_signatif::maps::TextMap;
use unidpp_signatif::revoke::{
    IssuanceIndex, QuorumAttestation, Revocation, RevocationLedger, RevocationReason,
    RevokedSubject,
};
use unidpp_signatif::scope::{DelegationScope, ScopeRequest};
use unidpp_signatif::sign::{AcceptancePolicy, CoSignature, SigningDomain, Suite};
use unidpp_signatif::time::{Interval, Timestamp};
use unidpp_signatif::verify::{
    anchor_from_inclusion, HistoricalStanding, Outcome, Reading, SignatifVerifier,
    VerificationTarget,
};

fn t(secs: i64) -> Timestamp {
    Timestamp::from_secs(secs)
}

fn seeded(seed: &[u8]) -> KeyPair {
    KeyPair::seeded(Suite::Ed25519, seed).unwrap()
}

fn node(id: &str) -> NodeId {
    NodeId::new(id).unwrap()
}

struct World {
    graph: TrustGraph,
    bundle: AnchorBundle,
    issuer: KeyPair,
    subject: PassportId,
}

fn world() -> World {
    let root = seeded(b"root");
    let issuer = seeded(b"issuer");
    let mut graph = TrustGraph::new();
    let mut r = DelegationNode::new(node("eu-root"), NodeKind::Root);
    r.register(RegisteredKey::of(&root));
    graph.add_node(r);
    let mut e = DelegationNode::new(node("issuer"), NodeKind::End);
    e.register(RegisteredKey::of(&issuer));
    graph.add_node(e);
    let scope = DelegationScope::unconstrained().product_group(&["batteries"]);
    let edge = DelegationCredential::mint_sign(&node("eu-root"), &node("issuer"), scope, &root)
        .unwrap();
    graph.add_edge(edge).unwrap();
    let witness = seeded(b"witness");
    let mut witnesses = TextMap::new();
    witnesses.insert("w-1", *witness.public());
    let mut master = MasterList::new(1, witnesses);
    master.upsert(MasterListEntry {
        node: node("eu-root"),
        attestations: vec![WitnessAttestation::mint_sign(
            &node("w-1"),
            &node("eu-root"),
            t(0),
            &witness,
        )
        .unwrap()],
    });
    let mut list = TrustList::new("EU");
    list.trust(node("eu-root"), t(0));
    World {
        graph,
        bundle: AnchorBundle {
            jurisdiction: "EU".into(),
            trust_lists: vec![list],
            master,
        },
        issuer,
        subject: PassportId::new("urn:unidpp:passport:p1").unwrap(),
    }
}

fn target(w: &World) -> VerificationTarget {
    let mut co = CoSignature::new(SigningDomain::ArtifactEvent, b"body");
    co.sign_by(&w.issuer).unwrap();
    VerificationTarget {
        subject: w.subject.clone(),
        co_signature: co,
        active_links: 2,
    }
}

fn request(group: &str) -> ScopeRequest {
    ScopeRequest::new("eu", "p@1", group, t(50))
}

fn misissuance(w: &World) -> Revocation {
    let mut r = Revocation {
        subject: RevokedSubject::Key(w.issuer.key_id().clone()),
        reason: RevocationReason::Misissuance,
        declared_at: t(1000),
        window: Interval::between(t(0), t(100)).unwrap(),
        declared_by: node("super"),
        quorum: None,
    };
    let a = seeded(b"q-a");
    let b = seeded(b"q-b");
    r.quorum = Some(
        QuorumAttestation::mint_sign(&node("super"), 2, &r.statement_bytes(), &[&a, &b]).unwrap(),
    );
    r
}

#[test]
fn trusted_artifacts_are_accepted() {
    let w = world();
    let ledger = RevocationLedger::new();
    let issuers = IssuanceIndex::new();
    let provenance = ProvenanceGraph::new();
    let verifier = SignatifVerifier {
        graph: &w.graph,
        bundle: &w.bundle,
        ledger: &ledger,
        request: request("batteries"),
        policy: AcceptancePolicy::any_computed(),
    };
    let v = verifier.verify(
        &target(&w),
        t(50),
        &issuers,
        &provenance,
        Reading::TrustPath,
        Outcome::Pass,
    );
    assert!(v.accepted());
    assert!(!v.voids_ab_initio());
    assert_eq!(v.reading_answered(), Reading::TrustPath);
    assert_eq!(v.trust.slots.len(), 1);
    assert_eq!(v.trust.slots[0].path.as_ref().unwrap().hops(), 1);
}

#[test]
fn out_of_scope_artifacts_are_not_accepted() {
    let w = world();
    let ledger = RevocationLedger::new();
    let verifier = SignatifVerifier {
        graph: &w.graph,
        bundle: &w.bundle,
        ledger: &ledger,
        request: request("textiles"),
        policy: AcceptancePolicy::any_computed(),
    };
    let v = verifier.verify(
        &target(&w),
        t(50),
        &IssuanceIndex::new(),
        &ProvenanceGraph::new(),
        Reading::TrustPath,
        Outcome::Pass,
    );
    assert!(!v.accepted());
    assert!(v.trust.slots[0].path.is_err());
}

#[test]
fn void_artifacts_are_not_accepted_but_their_history_stands_until_declared() {
    let w = world();
    let mut issuers = IssuanceIndex::new();
    issuers.record(w.subject.clone(), t(50), w.issuer.key_id().clone());
    let provenance = ProvenanceGraph::new();
    let before = RevocationLedger::new();
    let notary = seeded(b"notary");
    let verifier = SignatifVerifier {
        graph: &w.graph,
        bundle: &w.bundle,
        ledger: &before,
        request: request("batteries"),
        policy: AcceptancePolicy::any_computed(),
    };
    let history = verifier
        .verify_historical(
            &w.subject,
            t(60),
            Some(sha256(b"state")),
            Outcome::Pass,
            &issuers,
            &provenance,
            &notary,
        )
        .unwrap();
    history.verify_notary(notary.public()).unwrap();
    assert!(history.verify_notary(w.issuer.public()).is_err());
    assert!(history
        .still_stands(&before, &issuers, &provenance)
        .survives());

    let mut after = RevocationLedger::new();
    after.declare(misissuance(&w)).unwrap();
    assert!(matches!(
        history.still_stands(&after, &issuers, &provenance),
        HistoricalStanding::RetroactivelyInvalidated { .. }
    ));
    let strict = SignatifVerifier {
        graph: &w.graph,
        bundle: &w.bundle,
        ledger: &after,
        request: request("batteries"),
        policy: AcceptancePolicy::any_computed(),
    };
    let v = strict.verify(
        &target(&w),
        t(50),
        &issuers,
        &provenance,
        Reading::CurrentState,
        Outcome::Pass,
    );
    assert!(v.voids_ab_initio());
    assert!(!v.accepted());
}

#[test]
fn historical_states_anchor_in_the_log() {
    let mut log = TransparencyLog::new("log");
    log.append(LogEntry::public(sha256(b"a")));
    log.append(LogEntry::public(sha256(b"b")));
    let operator = seeded(b"operator");
    let sth = log.sign_tree_head(t(5), &operator).unwrap();
    let inclusion = log.inclusion_proof(1).unwrap();
    assert!(anchor_from_inclusion(&sha256(b"b"), &inclusion, &sth).is_ok());
    assert!(
        anchor_from_inclusion(&sha256(b"c"), &inclusion, &sth).is_err()
    );
}

#[test]
fn the_record_check_is_handed_what_the_trust_layer_found() {
    let w = world();
    let mut issuers = IssuanceIndex::new();
    issuers.record(w.subject.clone(), t(50), w.issuer.key_id().clone());
    let provenance = ProvenanceGraph::new();
    let mut ledger = RevocationLedger::new();
    ledger.declare(misissuance(&w)).unwrap();
    let verifier = SignatifVerifier {
        graph: &w.graph,
        bundle: &w.bundle,
        ledger: &ledger,
        request: request("batteries"),
        policy: AcceptancePolicy::any_computed(),
    };
    let carried = KeyPair::seeded(Suite::EcdsaP256, b"carried").unwrap();
    let mut both = target(&w);
    both.co_signature.sign_by(&carried).unwrap();
    let inputs = verifier.record_inputs(&both, t(50), &issuers, &provenance);
    assert_eq!(inputs.signatures.len(), 1);
    assert_eq!(inputs.signatures[0].key_id, carried.key_id().as_str());
    assert!(inputs.attested);
    assert!(inputs.taints.voids_ab_initio());

    let stranger = seeded(b"stranger");
    let mut co = CoSignature::new(SigningDomain::ArtifactEvent, b"body");
    co.sign_by(&stranger).unwrap();
    let unknown = VerificationTarget {
        subject: w.subject.clone(),
        co_signature: co,
        active_links: 0,
    };
    let inputs = verifier.record_inputs(&unknown, t(50), &IssuanceIndex::new(), &provenance);
    assert!(inputs.signatures.is_empty());
    assert!(!inputs.attested);
    assert!(!inputs.taints.voids_ab_initio());
}
