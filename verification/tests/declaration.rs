use unidpp_signatif::declaration::{
    ClassPosture, DeclarationSet, HarmonizationLevel, InteropDeclaration, Permission,
    RecognitionMode, TransportMode,
};
use unidpp_signatif::graph::{DelegationNode, NodeId, NodeKind, RegisteredKey, TrustGraph};
use unidpp_signatif::keyring::{KeyId, KeyPair};
use unidpp_signatif::sign::Suite;

fn graph_with(nodes: &[(&str, &KeyPair)]) -> TrustGraph {
    let mut graph = TrustGraph::new();
    for (id, key) in nodes {
        let mut node = DelegationNode::new(NodeId::new(id).unwrap(), NodeKind::Delegated);
        node.register(RegisteredKey {
            key_id: KeyId::of(key.public()),
            public: *key.public(),
        });
        graph.add_node(node);
    }
    graph
}

fn permitting(declarer_key: &KeyPair) -> InteropDeclaration {
    InteropDeclaration::issue(
        "weilian-shenzhen",
        "de-zoll",
        1,
        vec![ClassPosture {
            data_class: "cn-dynamic".into(),
            level: HarmonizationLevel::L2,
            recognition: RecognitionMode::BilateralAnchors,
            transports: vec![TransportMode::Protocol, TransportMode::Document],
            escalation: Some("cn-samr-escrow".into()),
            reciprocity: Some("eu-cn-mutual".into()),
        }],
        "2027-01-01T00:00:00Z",
        None,
        declarer_key,
    )
    .unwrap()
}

// a declaration change flips a live
// relationship's behavior — v2 (refusing) supersedes v1.
#[test]
fn declaration_changes_flip_live_behavior() {
    let declarer = KeyPair::seeded(Suite::Ed25519, b"decl/weilian").unwrap();
    let graph = graph_with(&[("weilian-shenzhen", &declarer)]);
    let mut set = DeclarationSet::new();

    set.register(permitting(&declarer));
    assert!(set
        .latest_for("weilian-shenzhen", "de-zoll")
        .unwrap()
        .verify(&graph)
        .is_ok());
    assert_eq!(
        set.permits(
            "weilian-shenzhen",
            "de-zoll",
            "cn-dynamic",
            TransportMode::Document
        ),
        Permission::Permitted {
            level: HarmonizationLevel::L2,
            recognition: RecognitionMode::BilateralAnchors
        }
    );

    // v2: the class drops to L0 — the WILL gap.
    let refusing = InteropDeclaration::issue(
        "weilian-shenzhen",
        "de-zoll",
        2,
        vec![ClassPosture {
            data_class: "cn-dynamic".into(),
            level: HarmonizationLevel::L0,
            recognition: RecognitionMode::UnilateralPinning,
            transports: vec![],
            escalation: Some("cn-samr-escrow".into()),
            reciprocity: None,
        }],
        "2030-01-01T00:00:00Z",
        None,
        &declarer,
    )
    .unwrap();
    set.register(refusing);
    match set.permits(
        "weilian-shenzhen",
        "de-zoll",
        "cn-dynamic",
        TransportMode::Document,
    ) {
        Permission::Refused { reason } => assert!(reason.contains("WILL gap"), "{reason}"),
        other => panic!("expected refusal, got {other:?}"),
    }
}

// A hub relay without a permitting declaration is refused; no
// declaration at all is stated, never silent; the wildcard
// fallback works; the wrong key does not verify.
#[test]
fn hub_and_absence_semantics() {
    let declarer = KeyPair::seeded(Suite::Ed25519, b"decl/weilian").unwrap();
    let impostor = KeyPair::seeded(Suite::Ed25519, b"decl/impostor").unwrap();
    let graph = graph_with(&[("weilian-shenzhen", &declarer)]);
    let mut set = DeclarationSet::new();
    set.register(permitting(&declarer));

    // Hub not offered → refused (the CAN gap is for hubs that
    // both sides declared hub transport through).
    match set.permits(
        "weilian-shenzhen",
        "de-zoll",
        "cn-dynamic",
        TransportMode::Hub,
    ) {
        Permission::Refused { reason } => assert!(reason.contains("not `hub`"), "{reason}"),
        other => panic!("expected refusal, got {other:?}"),
    }

    // No declaration for an unknown counterpart → stated.
    assert_eq!(
        set.permits(
            "weilian-shenzhen",
            "random-party",
            "cn-dynamic",
            TransportMode::Document
        ),
        Permission::NoDeclaration
    );

    // The "*" fallback serves unlisted classes of a declared
    // counterpart.
    let wildcard = InteropDeclaration::issue(
        "weilian-shenzhen",
        "*",
        1,
        vec![ClassPosture {
            data_class: "*".into(),
            level: HarmonizationLevel::L1,
            recognition: RecognitionMode::UnilateralPinning,
            transports: vec![TransportMode::Document],
            escalation: None,
            reciprocity: None,
        }],
        "2027-01-01T00:00:00Z",
        None,
        &declarer,
    )
    .unwrap();
    set.register(wildcard);
    assert!(matches!(
        set.permits(
            "weilian-shenzhen",
            "de-zoll",
            "eu-static",
            TransportMode::Document
        ),
        Permission::Permitted { .. }
    ));

    // A declaration signed by the wrong key does not verify.
    let forged = permitting(&impostor);
    assert!(forged.verify(&graph).is_err());
}

// The canonical form is order-insensitive over postures and
// transports (equal postures serialize to equal bytes).
#[test]
fn canonical_bytes_are_order_insensitive() {
    let key = KeyPair::seeded(Suite::Ed25519, b"decl/x").unwrap();
    let a = InteropDeclaration::issue(
        "s",
        "c",
        1,
        vec![
            ClassPosture {
                data_class: "b".into(),
                level: HarmonizationLevel::L1,
                recognition: RecognitionMode::ClubList,
                transports: vec![TransportMode::Hub, TransportMode::Document],
                escalation: None,
                reciprocity: None,
            },
            ClassPosture {
                data_class: "a".into(),
                level: HarmonizationLevel::L1,
                recognition: RecognitionMode::ClubList,
                transports: vec![],
                escalation: None,
                reciprocity: None,
            },
        ],
        "2027-01-01T00:00:00Z",
        None,
        &key,
    )
    .unwrap();
    let mut b = a.clone();
    b.postures.reverse();
    b.postures[0].transports.reverse();
    assert_eq!(a.canonical_bytes(), b.canonical_bytes());
    assert_eq!(a.digest(), b.digest());
}

#[test]
fn refusals_list_what_is_offered() {
    let key = KeyPair::seeded(Suite::Ed25519, b"decl/weilian").unwrap();
    let mut set = DeclarationSet::default();
    assert_eq!(set.register(permitting(&key)), 1);
    assert_eq!(
        set.permits(
            "weilian-shenzhen",
            "de-zoll",
            "cn-dynamic",
            TransportMode::Hub
        ),
        Permission::Refused {
            reason: "`weilian-shenzhen` offers [Protocol, Document] for class `cn-dynamic` \
                     toward `de-zoll`, not `hub`"
                .into()
        }
    );
}

#[test]
fn the_later_of_two_equal_versions_counts() {
    let key = KeyPair::seeded(Suite::Ed25519, b"decl/weilian").unwrap();
    let mut set = DeclarationSet::new();
    set.register(permitting(&key));
    let mut again = permitting(&key);
    again.postures[0].level = HarmonizationLevel::L5;
    set.register(again);
    let latest = set.latest_for("weilian-shenzhen", "de-zoll").unwrap();
    assert_eq!(latest.postures[0].level, HarmonizationLevel::L5);
    assert!(set.latest_for("weilian-shenzhen", "nobody").is_none());
}
