use unidpp_signatif::declaration::{
    ClassPosture, DeclarationSet, HarmonizationLevel, InteropDeclaration, RecognitionMode,
    TransportMode,
};
use unidpp_signatif::graph::{DelegationNode, NodeId, NodeKind, RegisteredKey, TrustGraph};
use unidpp_signatif::keyring::{KeyId, KeyPair};
use unidpp_signatif::party::ObjectClass;
use unidpp_signatif::scheme::{
    behaviour_for_level, bridge_fresh, bridge_health, declared_level, recognize, BridgeDescriptor,
    BridgedIdentity, ClassBehaviour, ClubList, PortableStatement, Recognition,
};
use unidpp_signatif::sign::Suite;

fn graph_with(nodes: &[(&str, &KeyPair)]) -> TrustGraph {
    let mut graph = TrustGraph::new();
    for (id, key) in nodes {
        let mut node = DelegationNode::new(NodeId::new(id).unwrap(), NodeKind::Delegated);
        node.register(RegisteredKey {
            key_id: KeyId::of(key.public()),
            public: *key.public(),
        });
        graph.add_node(node);
    }
    graph
}

// all four modes exercised; class-scoped
// recognition refuses out-of-class objects.
#[test]
fn all_four_recognition_modes_and_class_scoping() {
    // Unilateral: pinned here → recognized.
    assert!(matches!(
        recognize(
            RecognitionMode::UnilateralPinning,
            ObjectClass::SovereignAttestation,
            "cn-attestation-service",
            true,
            false,
            None,
            false
        ),
        Recognition::Recognized(_)
    ));
    // Unilateral: not pinned → refused, stated.
    assert!(matches!(
        recognize(
            RecognitionMode::UnilateralPinning,
            ObjectClass::SovereignAttestation,
            "cn-attestation-service",
            false,
            false,
            None,
            false
        ),
        Recognition::Refused { .. }
    ));
    // Bilateral: both pins required.
    assert!(matches!(
        recognize(
            RecognitionMode::BilateralAnchors,
            ObjectClass::S13Message,
            "weilian-shenzhen",
            true,
            true,
            None,
            false
        ),
        Recognition::Recognized(_)
    ));
    assert!(matches!(
        recognize(
            RecognitionMode::BilateralAnchors,
            ObjectClass::S13Message,
            "weilian-shenzhen",
            true,
            false,
            None,
            false
        ),
        Recognition::Refused { .. }
    ));
    // Club list: membership is class-scoped.
    let operator = KeyPair::seeded(Suite::Ed25519, b"club/op").unwrap();
    let club = ClubList::issue(
        "the-club",
        vec![ObjectClass::Profile, ObjectClass::SovereignAttestation],
        vec!["cn-attestation-service".into()],
        &operator,
    )
    .unwrap();
    assert!(matches!(
        recognize(
            RecognitionMode::ClubList,
            ObjectClass::SovereignAttestation,
            "cn-attestation-service",
            false,
            false,
            Some(&club),
            false
        ),
        Recognition::Recognized(_)
    ));
    // Out-of-class object: refused even for a member.
    let out = recognize(
        RecognitionMode::ClubList,
        ObjectClass::InteropDeclaration,
        "cn-attestation-service",
        false,
        false,
        Some(&club),
        false,
    );
    assert!(matches!(out, Recognition::Refused { .. }));
    // The operator's signature verifies; a forged list fails.
    let graph = graph_with(&[("club-op", &operator)]);
    club.verify("club-op", &graph).unwrap();
    let impostor = KeyPair::seeded(Suite::Ed25519, b"club/impostor").unwrap();
    let forged = ClubList::issue(
        "the-club",
        vec![ObjectClass::Profile],
        vec!["anyone".into()],
        &impostor,
    )
    .unwrap();
    assert!(forged.verify("club-op", &graph).is_err());
    // Master-list mesh: on-list recognized; off-list refused.
    assert!(matches!(
        recognize(
            RecognitionMode::MasterListMesh,
            ObjectClass::SegmentPolicy,
            "cn-samr",
            false,
            false,
            None,
            true
        ),
        Recognition::Recognized(_)
    ));
    assert!(matches!(
        recognize(
            RecognitionMode::MasterListMesh,
            ObjectClass::SegmentPolicy,
            "unknown",
            false,
            false,
            None,
            false
        ),
        Recognition::Refused { .. }
    ));
}

fn posture(class: &str, level: HarmonizationLevel) -> ClassPosture {
    ClassPosture {
        data_class: class.into(),
        level,
        recognition: RecognitionMode::UnilateralPinning,
        transports: vec![TransportMode::Document, TransportMode::Protocol],
        escalation: None,
        reciprocity: None,
    }
}

// a mixed-level relationship drives different
// behaviour per class — direct vs substituted vs gap.
#[test]
fn mixed_levels_drive_per_class_behaviour() {
    let here = KeyPair::seeded(Suite::Ed25519, b"lvl/eu").unwrap();
    let there = KeyPair::seeded(Suite::Ed25519, b"lvl/cn").unwrap();
    let mut set = DeclarationSet::new();
    set.register(
        InteropDeclaration::issue(
            "eu-registry",
            "cn-scheme",
            1,
            vec![
                posture("eu-static", HarmonizationLevel::L4),
                posture("cn-dynamic", HarmonizationLevel::L2),
            ],
            "2027-01-01T00:00:00Z",
            None,
            &here,
        )
        .unwrap(),
    );
    set.register(
        InteropDeclaration::issue(
            "cn-scheme",
            "eu-registry",
            1,
            vec![
                posture("eu-static", HarmonizationLevel::L5),
                posture("cn-dynamic", HarmonizationLevel::L1),
            ],
            "2027-01-01T00:00:00Z",
            None,
            &there,
        )
        .unwrap(),
    );
    // The pair's declared level per class is the minimum of the
    // two sides: eu-static min(4,5)=L4 → direct; cn-dynamic
    // min(2,1)=L1 → substituted; undeclared → gap.
    let eu = declared_level(&set, "eu-registry", "cn-scheme", "eu-static").unwrap();
    let cn = declared_level(&set, "eu-registry", "cn-scheme", "cn-dynamic").unwrap();
    assert_eq!(eu.ordinal(), 4);
    assert_eq!(cn.ordinal(), 1);
    assert_eq!(behaviour_for_level(Some(eu)), ClassBehaviour::Direct);
    assert_eq!(behaviour_for_level(Some(cn)), ClassBehaviour::Substituted);
    assert_eq!(
        declared_level(&set, "eu-registry", "cn-scheme", "unknown"),
        None
    );
    assert_eq!(behaviour_for_level(None), ClassBehaviour::Gap);
    assert_eq!(
        behaviour_for_level(Some(HarmonizationLevel::L0)),
        ClassBehaviour::Gap
    );
}

// a foreign scheme ingests a composite event and
// resolves its structure without the origin's semantics.
#[test]
fn foreign_schemes_resolve_composites_through_bridges() {
    let bridges = vec![
        BridgedIdentity {
            origin: "urn:unidpp:passport:cell-a".into(),
            foreign: "https://id.gs1.org/01/04006381/cell-a".into(),
            bridge: "urn:unidpp:mapping:unidpp-gs1".into(),
        },
        BridgedIdentity {
            origin: "urn:unidpp:passport:cell-b".into(),
            foreign: "https://id.gs1.org/01/04006381/cell-b".into(),
            bridge: "urn:unidpp:mapping:unidpp-gs1".into(),
        },
    ];
    let statement = PortableStatement {
        kind: "combine".into(),
        transform: "urn:unidpp:transform:pack-combine@1".into(),
        inputs: vec![
            "urn:unidpp:passport:cell-a".into(),
            "urn:unidpp:passport:cell-b".into(),
        ],
        output: BridgedIdentity {
            origin: "urn:unidpp:passport:pack-1".into(),
            foreign: "https://id.gs1.org/01/04006381/pack-1".into(),
            bridge: "urn:unidpp:mapping:unidpp-gs1".into(),
        },
    };
    let resolved = statement.resolve(&bridges).unwrap();
    assert_eq!(resolved.kind, "combine");
    assert_eq!(resolved.transform, "urn:unidpp:transform:pack-combine@1");
    assert_eq!(
        resolved.inputs,
        vec![
            "https://id.gs1.org/01/04006381/cell-a",
            "https://id.gs1.org/01/04006381/cell-b"
        ]
    );
    assert_eq!(resolved.output, "https://id.gs1.org/01/04006381/pack-1");
    // An unbridged input is a stated failure, never a guess.
    let mut partial = statement.clone();
    partial.inputs.push("urn:unidpp:passport:cell-c".into());
    let err = partial.resolve(&bridges).unwrap_err().to_string();
    assert!(
        err.contains("cell-c") && err.contains("no bridge entry"));
}

// a stale bridge degrades exactly its covered
// classes; the health report names versions.
#[test]
fn stale_bridges_degrade_exactly_their_classes() {
    let eu_cn = BridgeDescriptor {
        mapping_ref: "urn:unidpp:mapping:eu-cn".into(),
        version: 3,
        covered_classes: vec!["eu-static".into(), "eu-reparability".into()],
        refreshed_at: "2030-06-01T00:00:00Z".into(),
    };
    let other = BridgeDescriptor {
        mapping_ref: "urn:unidpp:mapping:jp-eu".into(),
        version: 7,
        covered_classes: vec!["jp-static".into()],
        refreshed_at: "2030-05-01T00:00:00Z".into(),
    };
    // At 2030-06-02 with a 10-day window: eu-cn fresh, jp-eu
    // stale (refreshed 32 days prior).
    let at = "2030-06-02T00:00:00Z";
    assert!(bridge_fresh(&eu_cn, at, 10 * 24 * 3600).unwrap());
    assert!(!bridge_fresh(&other, at, 10 * 24 * 3600).unwrap());
    let health = bridge_health(&[eu_cn, other], at, 10 * 24 * 3600);
    assert_eq!(health.bridges.len(), 2);
    let eu_entry = &health.bridges[0];
    assert_eq!(eu_entry.version, 3);
    assert!(eu_entry.classes.iter().all(|(_, fresh)| *fresh));
    let jp_entry = &health.bridges[1];
    assert_eq!(jp_entry.version, 7);
    assert!(jp_entry.classes.iter().all(|(_, fresh)| !*fresh));
    // The degradation touches exactly the stale bridge's
    // classes: jp-static degraded, eu classes untouched.
    let degraded: Vec<&str> = health
        .bridges
        .iter()
        .flat_map(|b| {
            b.classes
                .iter()
                .filter(|(_, f)| !f)
                .map(|(c, _)| c.as_str())
        })
        .collect();
    assert_eq!(degraded, ["jp-static"]);
}

#[test]
fn refusals_say_what_is_missing() {
    let refusal = |mode, here, there, club: Option<&ClubList>| match recognize(
        mode,
        ObjectClass::Profile,
        "x",
        here,
        there,
        club,
        false,
    ) {
        Recognition::Refused { reason } => reason,
        other => panic!("expected a refusal, got {other:?}"),
    };
    assert_eq!(
        refusal(RecognitionMode::BilateralAnchors, true, false, None),
        "bilateral anchors: the exchange is incomplete (`x` pinned here: true; this verifier \
         pinned there: false)"
    );
    assert_eq!(
        refusal(RecognitionMode::ClubList, false, false, None),
        "club list: no list held"
    );
}

#[test]
fn unreadable_bridges_count_as_stale() {
    let b = BridgeDescriptor {
        mapping_ref: "m".into(),
        version: 1,
        covered_classes: vec!["c".into()],
        refreshed_at: "yesterday".into(),
    };
    assert!(bridge_fresh(&b, "2030-06-02T00:00:00Z", 10).is_err());
    let health = bridge_health(&[b], "2030-06-02T00:00:00Z", 10);
    assert_eq!(health.bridges[0].classes, vec![("c".to_string(), false)]);
    let future = BridgeDescriptor {
        mapping_ref: "m".into(),
        version: 1,
        covered_classes: vec![],
        refreshed_at: "2030-06-03T00:00:00Z".into(),
    };
    assert!(!bridge_fresh(&future, "2030-06-02T00:00:00Z", 10).unwrap());
}
