use unidpp_signatif::graph::{DelegationNode, NodeId, NodeKind, RegisteredKey, TrustGraph};
use unidpp_signatif::hierarchy::{
    CalibrationCertificate, CertifiedChain, ChainLink, HierarchyTier,
};
use unidpp_signatif::keyring::{KeyId, KeyPair};
use unidpp_signatif::scope::{DelegationScope, ScopeRequest};
use unidpp_signatif::sign::Suite;
use unidpp_signatif::time::{Interval, Timestamp};

fn cast() -> (TrustGraph, KeyPair, KeyPair, KeyPair, KeyPair) {
    let root = KeyPair::seeded(Suite::Ed25519, b"cnml/root").unwrap();
    let authority = KeyPair::seeded(Suite::Ed25519, b"cnml/cnas").unwrap();
    let lab = KeyPair::seeded(Suite::Ed25519, b"cnml/lab").unwrap();
    let maker = KeyPair::seeded(Suite::Ed25519, b"cnml/maker").unwrap();
    let mut graph = TrustGraph::new();
    for (id, key) in [
        ("cnml-root", &root),
        ("cnml-issuing", &authority),
        ("cnml-bms-lab", &lab),
        ("weilian-model", &maker),
    ] {
        let mut node = DelegationNode::new(NodeId::new(id).unwrap(), NodeKind::Delegated);
        node.register(RegisteredKey {
            key_id: KeyId::of(key.public()),
            public: *key.public(),
        });
        graph.add_node(node);
    }
    (graph, root, authority, lab, maker)
}

fn chain(cast: &(TrustGraph, KeyPair, KeyPair, KeyPair, KeyPair)) -> CertifiedChain {
    let (_, root, authority, lab, maker) = cast;
    // The lab is scoped to the battery group only.
    let lab_scope = DelegationScope::unconstrained()
        .product_group(&["battery-bms"])
        .within(Interval {
            from: Timestamp::parse("2027-01-01T00:00:00Z").unwrap(),
            to: Some(Timestamp::parse("2031-12-31T23:59:59Z").unwrap()),
        });
    let links = vec![
        ChainLink::issue(
            HierarchyTier::Root,
            HierarchyTier::IssuingAuthority,
            "cnml-issuing",
            DelegationScope::unconstrained(),
            root,
        )
        .unwrap(),
        ChainLink::issue(
            HierarchyTier::IssuingAuthority,
            HierarchyTier::TestLab,
            "cnml-bms-lab",
            lab_scope.clone(),
            authority,
        )
        .unwrap(),
        ChainLink::issue(
            HierarchyTier::TestLab,
            HierarchyTier::ManufacturerModel,
            "weilian-model",
            lab_scope,
            lab,
        )
        .unwrap(),
        ChainLink::issue(
            HierarchyTier::ManufacturerModel,
            HierarchyTier::Instance,
            "pack-0001",
            DelegationScope::unconstrained(),
            maker,
        )
        .unwrap(),
    ];
    CertifiedChain {
        nodes: vec![
            (HierarchyTier::Root, "cnml-root".into()),
            (HierarchyTier::IssuingAuthority, "cnml-issuing".into()),
            (HierarchyTier::TestLab, "cnml-bms-lab".into()),
            (HierarchyTier::ManufacturerModel, "weilian-model".into()),
            (HierarchyTier::Instance, "pack-0001".into()),
        ],
        links,
    }
}

fn act(product_group: &str) -> ScopeRequest {
    ScopeRequest::new(
        "cnml-bms-lab",
        "bms-conformity@1",
        product_group,
        Timestamp::parse("2030-06-01T00:00:00Z").unwrap(),
    )
}

// a full chain verifies in scope; an out-of-scope
// act is rejected AT USE TIME with the refusing link named.
#[test]
fn full_chains_verify_and_out_of_scope_acts_are_rejected_at_use() {
    let c = cast();
    let (graph, _, _, lab, _) = &c;
    let certified = chain(&c);

    // In scope: every link admits the battery act.
    certified.admits(&act("battery-bms"), graph).unwrap();

    // Out of scope: the lab link refuses, named.
    let err = certified
        .admits(&act("medical-devices"), graph)
        .unwrap_err()
        .to_string();
    assert!(err.contains("link 2"));
    assert!(err.contains("issuing-authority"));
    assert!(err.contains("test-lab"));

    // DCC-style calibration evidence verifies under the chain's
    // lab; a forged certificate fails.
    let dcc = CalibrationCertificate::issue(
        "pack-0001",
        "capacity",
        "52.0",
        "0.1",
        "Ah",
        "2030-06-01T00:00:00Z",
        Some("2031-06-01T00:00:00Z"),
        "cnml-bms-lab",
        lab,
    )
    .unwrap();
    dcc.verify(graph).unwrap();
    let impostor = KeyPair::seeded(Suite::Ed25519, b"cnml/impostor").unwrap();
    let forged = CalibrationCertificate::issue(
        "pack-0001",
        "capacity",
        "99.9",
        "0.1",
        "Ah",
        "2030-06-01T00:00:00Z",
        None,
        "cnml-bms-lab",
        &impostor,
    )
    .unwrap();
    assert!(forged.verify(graph).is_err());
}

// A broken link credential fails the whole chain at use time —
// ingestion validity is not sufficient.
#[test]
fn broken_credentials_fail_at_use_time() {
    let c = cast();
    let lab = &c.3;
    let mut certified = chain(&c);
    // Re-sign the first link with the WRONG key (the lab's).
    let bad = ChainLink::issue(
        HierarchyTier::Root,
        HierarchyTier::IssuingAuthority,
        "cnml-issuing",
        DelegationScope::unconstrained(),
        lab,
    )
    .unwrap();
    certified.links[0] = bad;
    assert!(certified.admits(&act("battery-bms"), &c.0).is_err());
}
