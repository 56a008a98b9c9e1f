use unidpp_signatif::declaration::{
    ClassPosture, DeclarationSet, HarmonizationLevel, InteropDeclaration, RecognitionMode,
    TransportMode,
};
use unidpp_signatif::graph::{DelegationNode, NodeId, NodeKind, RegisteredKey, TrustGraph};
use unidpp_signatif::keyring::{KeyId, KeyPair};
use unidpp_signatif::sign::Suite;
use unidpp_signatif::transport::{deliver, DeliveryOutcome, Hub};

fn graph_with(nodes: &[(&str, &KeyPair)]) -> TrustGraph {
    let mut graph = TrustGraph::new();
    for (id, key) in nodes {
        let mut node = DelegationNode::new(NodeId::new(id).unwrap(), NodeKind::Delegated);
        node.register(RegisteredKey {
            key_id: KeyId::of(key.public()),
            public: *key.public(),
        });
        graph.add_node(node);
    }
    graph
}

fn declaring(declarer: &str, counterpart: &str, key: &KeyPair) -> InteropDeclaration {
    InteropDeclaration::issue(
        declarer,
        counterpart,
        1,
        vec![ClassPosture {
            data_class: "cn-dynamic".into(),
            level: HarmonizationLevel::L3,
            recognition: RecognitionMode::BilateralAnchors,
            transports: vec![
                TransportMode::Protocol,
                TransportMode::Document,
                TransportMode::Hub,
            ],
            escalation: None,
            reciprocity: None,
        }],
        "2027-01-01T00:00:00Z",
        None,
        key,
    )
    .unwrap()
}

const EVIDENCE: &[u8] = b"urn:unidpp:passport:pack-0001 (the frozen view bytes)";

// the same evidence delivered through all three
// modes, all publisher-willing — one digest, one verdict.
#[test]
fn three_modes_one_verdict() {
    let custodian = KeyPair::seeded(Suite::Ed25519, b"t/weilian").unwrap();
    let hub_key = KeyPair::seeded(Suite::Ed25519, b"t/hub").unwrap();
    let mut set = DeclarationSet::new();
    set.register(declaring("weilian-shenzhen", "de-zoll", &custodian));
    set.register(declaring("de-zoll", "weilian-shenzhen", &custodian));

    let mut digests = Vec::new();
    for mode in [
        TransportMode::Protocol,
        TransportMode::Document,
        TransportMode::Hub,
    ] {
        match deliver(
            &set,
            "weilian-shenzhen",
            "de-zoll",
            "cn-dynamic",
            mode,
            EVIDENCE,
        ) {
            DeliveryOutcome::Delivered {
                evidence_digest,
                mode: m,
            } => {
                assert_eq!(m, mode);
                digests.push(evidence_digest);
            }
            DeliveryOutcome::Gap { reason } => panic!("unexpected gap: {reason}"),
        }
    }
    digests.dedup();
    assert_eq!(
        digests.len(),
        1,
        "the three modes carry one evidence digest"
    );

    // The hub relay carries the same bytes and verifies.
    let graph = graph_with(&[("hub-1", &hub_key)]);
    let hub = Hub {
        hub_id: "hub-1".into(),
    };
    let relayed = hub
        .relay(
            EVIDENCE,
            "weilian-shenzhen",
            "de-zoll",
            "cn-dynamic",
            &set,
            &hub_key,
        )
        .unwrap();
    assert_eq!(relayed.evidence_digest, digests[0]);
    relayed.verify(EVIDENCE, &graph).unwrap();
}

// The refusal case: a posture that does not offer hub transport
// yields a STATED gap at delivery, and the hub refuses the relay
// (never brokered around).
#[test]
fn refusal_surfaces_as_a_stated_gap() {
    let custodian = KeyPair::seeded(Suite::Ed25519, b"t/weilian").unwrap();
    let mut set = DeclarationSet::new();
    let mut declaration = declaring("weilian-shenzhen", "de-zoll", &custodian);
    declaration.postures[0]
        .transports
        .retain(|t| *t != TransportMode::Hub);
    set.register(declaration);

    match deliver(
        &set,
        "weilian-shenzhen",
        "de-zoll",
        "cn-dynamic",
        TransportMode::Hub,
        EVIDENCE,
    ) {
        DeliveryOutcome::Gap { reason } => {
            assert!(reason.contains("not `hub`"), "{reason}")
        }
        other => panic!("expected a stated gap, got {other:?}"),
    }

    // The hub refuses on the same consultation.
    let hub_key = KeyPair::seeded(Suite::Ed25519, b"t/hub").unwrap();
    let hub = Hub {
        hub_id: "hub-1".into(),
    };
    let err = hub.relay(
        EVIDENCE,
        "weilian-shenzhen",
        "de-zoll",
        "cn-dynamic",
        &set,
        &hub_key,
    );
    assert!(err.is_err());

    // Absence of a declaration is equally stated at delivery.
    match deliver(
        &set,
        "weilian-shenzhen",
        "random-party",
        "cn-dynamic",
        TransportMode::Document,
        EVIDENCE,
    ) {
        DeliveryOutcome::Gap { reason } => {
            assert!(reason.contains("no interop declaration"), "{reason}")
        }
        other => panic!("expected a stated gap, got {other:?}"),
    }
}

// A hub with no declaration on the RECIPIENT side refuses too:
// both ends must be willing.
#[test]
fn the_hub_checks_both_sides() {
    let custodian = KeyPair::seeded(Suite::Ed25519, b"t/weilian").unwrap();
    let hub_key = KeyPair::seeded(Suite::Ed25519, b"t/hub").unwrap();
    let mut set = DeclarationSet::new();
    // Only the custodian declares; the verifier does not.
    set.register(declaring("weilian-shenzhen", "de-zoll", &custodian));
    let hub = Hub {
        hub_id: "hub-1".into(),
    };
    let err = hub.relay(
        EVIDENCE,
        "weilian-shenzhen",
        "de-zoll",
        "cn-dynamic",
        &set,
        &hub_key,
    );
    let message = err.unwrap_err().to_string();
    assert!(
        message.contains("no interop declaration") && message.contains("de-zoll"),
        "{message}"
    );
}

// Tampering with the relayed bytes fails verification (the hub
// attested a different digest); so does a forged hub signature.
#[test]
fn relays_are_tamper_evident() {
    let custodian = KeyPair::seeded(Suite::Ed25519, b"t/weilian").unwrap();
    let hub_key = KeyPair::seeded(Suite::Ed25519, b"t/hub").unwrap();
    let impostor = KeyPair::seeded(Suite::Ed25519, b"t/impostor").unwrap();
    let graph = graph_with(&[("hub-1", &hub_key)]);
    let mut set = DeclarationSet::new();
    set.register(declaring("weilian-shenzhen", "de-zoll", &custodian));
    set.register(declaring("de-zoll", "weilian-shenzhen", &custodian));
    let hub = Hub {
        hub_id: "hub-1".into(),
    };

    let relayed = hub
        .relay(
            EVIDENCE,
            "weilian-shenzhen",
            "de-zoll",
            "cn-dynamic",
            &set,
            &hub_key,
        )
        .unwrap();
    // Different bytes beside the attestation: fails.
    assert!(relayed.verify(b"different bytes", &graph).is_err());
    // An impostor signing as the hub: fails.
    let forged = hub
        .relay(
            EVIDENCE,
            "weilian-shenzhen",
            "de-zoll",
            "cn-dynamic",
            &set,
            &impostor,
        )
        .unwrap();
    assert!(forged.verify(EVIDENCE, &graph).is_err());
    // The genuine relay verifies.
    relayed.verify(EVIDENCE, &graph).unwrap();
}
