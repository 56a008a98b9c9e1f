use unidpp_signatif::accreditation::{
    check_grant_class, standing_at, AccreditationObject, AccreditationStanding,
};
use unidpp_signatif::graph::{DelegationNode, NodeId, NodeKind, RegisteredKey, TrustGraph};
use unidpp_signatif::keyring::{KeyId, KeyPair};
use unidpp_signatif::party::PartyClass;
use unidpp_signatif::sign::Suite;

fn cast() -> (TrustGraph, KeyPair) {
    let authority = KeyPair::seeded(Suite::Ed25519, b"accred/cnas").unwrap();
    let lab = KeyPair::seeded(Suite::Ed25519, b"accred/lab").unwrap();
    let mut graph = TrustGraph::new();
    for (id, key, party) in [
        ("cnas", &authority, Some(PartyClass::AccreditationAuthority)),
        ("cn-bms-lab", &lab, Some(PartyClass::ConformityBody)),
    ] {
        let mut node = DelegationNode::new(NodeId::new(id).unwrap(), NodeKind::Delegated);
        node.party = party;
        node.register(RegisteredKey {
            key_id: KeyId::of(key.public()),
            public: *key.public(),
        });
        graph.add_node(node);
    }
    (graph, authority)
}

fn grant(key: &KeyPair, valid_to: Option<&str>) -> AccreditationObject {
    AccreditationObject::issue(
        "cn-bms-lab",
        "cnas",
        1,
        vec!["battery-bms".into(), "cell-safety".into()],
        vec!["sm2".into(), "ed25519".into()],
        "2027-01-01T00:00:00Z",
        valid_to,
        key,
    )
    .unwrap()
}

// a live chain passes; an expired accreditation
// DEGRADES the verdict naming the chain; absence is stated.
#[test]
fn liveness_degrades_expired_chains_naming_them() {
    let (graph, key) = cast();
    let live = grant(&key, Some("2030-12-31T23:59:59Z"));
    assert_eq!(
        standing_at(
            &[live.clone()],
            "cn-bms-lab",
            "2030-06-01T00:00:00Z",
            &graph
        ),
        AccreditationStanding::Live
    );

    let expired = grant(&key, Some("2030-01-01T00:00:00Z"));
    match standing_at(&[expired], "cn-bms-lab", "2030-06-01T00:00:00Z", &graph) {
        AccreditationStanding::Expired {
            authority,
            valid_to,
        } => {
            assert_eq!(authority, "cnas");
            assert_eq!(valid_to, "2030-01-01T00:00:00Z");
        }
        other => panic!("expected expired, got {other:?}"),
    }

    match standing_at(&[], "cn-bms-lab", "2030-06-01T00:00:00Z", &graph) {
        AccreditationStanding::Missing { reason } => {
            assert!(reason.contains("cn-bms-lab"), "{reason}")
        }
        other => panic!("expected missing, got {other:?}"),
    }
}

// The grant's class gate: an A (or G) may accredit; a C may
// not; scope coverage is exact-or-wildcard; supersession takes
// the latest admissible version; canonical bytes are
// order-insensitive over scope and schemes.
#[test]
fn grants_are_class_bound_scope_checked_and_superseding() {
    let (graph, key) = cast();
    assert!(check_grant_class(PartyClass::AccreditationAuthority).is_ok());
    assert!(check_grant_class(PartyClass::Government).is_ok());
    assert!(check_grant_class(PartyClass::ConformityBody).is_err());

    let g = grant(&key, None);
    assert!(g.covers("battery-bms"));
    assert!(!g.covers("medical-devices"));
    assert!(g.verify(&graph).is_ok());

    // Wrong key: stated missing.
    let impostor = KeyPair::seeded(Suite::Ed25519, b"accred/impostor").unwrap();
    let forged = grant(&impostor, None);
    match standing_at(&[forged], "cn-bms-lab", "2030-06-01T00:00:00Z", &graph) {
        AccreditationStanding::Missing { reason } => {
            assert!(reason.contains("fails verification"), "{reason}")
        }
        other => panic!("expected missing, got {other:?}"),
    }

    // v2 supersedes v1: the latest admissible version governs.
    let v1 = AccreditationObject::issue(
        "cn-bms-lab",
        "cnas",
        1,
        vec!["battery-bms".into()],
        vec!["ed25519".into()],
        "2027-01-01T00:00:00Z",
        Some("2031-01-01T00:00:00Z"),
        &key,
    )
    .unwrap();
    let v2 = AccreditationObject::issue(
        "cn-bms-lab",
        "cnas",
        2,
        vec!["battery-bms".into()],
        vec!["ed25519".into()],
        "2027-01-01T00:00:00Z",
        Some("2029-01-01T00:00:00Z"),
        &key,
    )
    .unwrap();
    assert_eq!(
        standing_at(&[v1, v2], "cn-bms-lab", "2030-06-01T00:00:00Z", &graph),
        AccreditationStanding::Expired {
            authority: "cnas".into(),
            valid_to: "2029-01-01T00:00:00Z".into(),
        }
    );

    // Canonical bytes: scope/scheme order does not matter.
    let a = AccreditationObject::issue(
        "c",
        "a",
        1,
        vec!["x".into(), "y".into()],
        vec!["s1".into(), "s2".into()],
        "2027-01-01T00:00:00Z",
        None,
        &key,
    )
    .unwrap();
    let mut b = AccreditationObject::issue(
        "c",
        "a",
        1,
        vec!["y".into(), "x".into()],
        vec!["s2".into(), "s1".into()],
        "2027-01-01T00:00:00Z",
        None,
        &key,
    )
    .unwrap();
    assert_eq!(a.canonical_bytes(), b.canonical_bytes());
    assert_eq!(a.digest(), b.digest());
    b.scope.clear();
    assert_ne!(a.canonical_bytes(), b.canonical_bytes());
}

#[test]
fn malformed_times_are_stated() {
    let (graph, key) = cast();
    let g = grant(&key, None);
    assert_eq!(
        g.live_at("soon").unwrap_err().to_string(),
        "validation error: liveness instant: malformed timestamp `soon`"
    );
    assert!(!g.live_at("2026-12-31T23:59:59Z").unwrap());
    assert_eq!(
        standing_at(&[g], "cn-bms-lab", "2026-12-31T23:59:59Z", &graph),
        AccreditationStanding::Expired {
            authority: "cnas".into(),
            valid_to: "open-ended".into(),
        }
    );
}
