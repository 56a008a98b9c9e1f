use unidpp_signatif::graph::{DelegationNode, NodeId, NodeKind, RegisteredKey, TrustGraph};
use unidpp_signatif::grid::{SignedPolicy, SignedSpine};
use unidpp_signatif::keyring::{KeyId, KeyPair};
use unidpp_signatif::maps::TextMap;
use unidpp_signatif::segments::{PolicyObject, PolicyVerdict, RevealClass, Spine};
use unidpp_signatif::sign::Suite;

fn graph_with(node_id: &str, key: &KeyPair) -> TrustGraph {
    let mut graph = TrustGraph::new();
    let mut node = DelegationNode::new(NodeId::new(node_id).unwrap(), NodeKind::Delegated);
    node.register(RegisteredKey {
        key_id: KeyId::of(key.public()),
        public: *key.public(),
    });
    graph.add_node(node);
    graph
}

fn policy() -> PolicyObject {
    PolicyObject {
        policy_id: "cn-dynamic-bms".into(),
        version: 1,
        authority: "cn-samr".into(),
        readers: vec!["cn-customs".into()],
        verifiers: vec!["cn-customs".into()],
        writers: vec!["bms-oem".into()],
        reveal: RevealClass::OriginSealed,
        suites: vec!["sm2".into()],
        valid_from: "2027-01-01T00:00:00Z".into(),
        valid_to: None,
        superseded_by: None,
    }
}

#[test]
fn policies_verify_under_their_authority_only() {
    let authority = KeyPair::seeded(Suite::Ed25519, b"cn-samr-authority").unwrap();
    let impostor = KeyPair::seeded(Suite::Ed25519, b"impostor").unwrap();
    let graph = graph_with("cn-samr", &authority);

    let signed = SignedPolicy::issue(policy(), &authority).unwrap();
    let check = signed.verify(&graph).unwrap();
    assert!(check.signature_ok);
    assert_eq!(check.signer.as_str(), "cn-samr");

    // A cryptographically perfect signature from the WRONG key is
    // not this policy: the impostor's key is not registered to
    // the declared authority.
    let forged = SignedPolicy::issue(policy(), &impostor).unwrap();
    assert!(forged.verify(&graph).is_err());

    // A tampered policy under the real signature fails.
    let mut tampered = signed.clone();
    tampered.policy.reveal = RevealClass::Open;
    assert!(tampered.verify(&graph).is_err());
}

#[test]
fn freshness_rides_verification() {
    let authority = KeyPair::seeded(Suite::Ed25519, b"cn-samr-authority").unwrap();
    let graph = graph_with("cn-samr", &authority);
    let mut superseded = policy();
    superseded.superseded_by = Some(2);
    let signed = SignedPolicy::issue(superseded, &authority).unwrap();
    let check = signed.verify_with_freshness(&graph).unwrap();
    assert_eq!(
        check.fresh,
        PolicyVerdict::Stale {
            have: 1,
            current: 2
        }
    );
    let check = signed.verify(&graph).unwrap();
    assert!(matches!(check.fresh, PolicyVerdict::Stale { .. }));
}

#[test]
fn spines_verify_under_their_custodian() {
    let custodian = KeyPair::seeded(Suite::Ed25519, b"custodian").unwrap();
    let other = KeyPair::seeded(Suite::Ed25519, b"other").unwrap();
    let graph = graph_with("weilian-shenzhen", &custodian);
    let mut commitments = TextMap::new();
    commitments.insert("cn-dynamic", [7u8; 32]);
    let spine = Spine::over(1, commitments);

    let signed = SignedSpine::issue(spine, "weilian-shenzhen", &custodian).unwrap();
    signed.verify(&graph).unwrap();
    let wrong = SignedSpine::issue(signed.spine.clone(), "weilian-shenzhen", &other).unwrap();
    assert!(wrong.verify(&graph).is_err());
}
