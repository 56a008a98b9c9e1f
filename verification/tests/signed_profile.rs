use unidpp_signatif::graph::{DelegationNode, NodeId, NodeKind, RegisteredKey, TrustGraph};
use unidpp_signatif::keyring::{KeyId, KeyPair};
use unidpp_signatif::sign::{SignatureSlot, SigningDomain, Suite};
use unidpp_signatif::signed_profile::{IssuerClass, ProfileManifest, SignedProfile, TrustGrade};

fn graph_with(node_id: &str, key: &KeyPair) -> TrustGraph {
    let mut graph = TrustGraph::new();
    let mut node = DelegationNode::new(NodeId::new(node_id).unwrap(), NodeKind::Delegated);
    node.register(RegisteredKey {
        key_id: KeyId::of(key.public()),
        public: *key.public(),
    });
    graph.add_node(node);
    graph
}

fn manifest(class: IssuerClass) -> ProfileManifest {
    ProfileManifest {
        id: "urn:unidpp:profile:test".into(),
        issuer_class: class,
        content: r#""data_points":[{"scheme":"untded","code":"1005"}]"#.into(),
    }
}

#[test]
fn every_class_round_trips_and_caps_the_grade() {
    let issuer_key = KeyPair::seeded(Suite::Ed25519, b"profile-issuer").unwrap();
    let graph = graph_with("samr", &issuer_key);
    for (class, grade) in [
        (IssuerClass::Law, TrustGrade::Regulatory),
        (IssuerClass::Treaty, TrustGrade::Regulatory),
        (IssuerClass::Consensus, TrustGrade::MarketPractice),
        (IssuerClass::Attestation, TrustGrade::ThirdParty),
        (IssuerClass::Declaration, TrustGrade::SelfDeclared),
    ] {
        let signed = SignedProfile::issue(manifest(class), "samr", &issuer_key).unwrap();
        // Class retained through the signed round trip.
        assert_eq!(signed.manifest.issuer_class, class);
        let check = signed.verify(&graph).unwrap();
        assert_eq!(check.class, class, "class retained on the check");
        // A declaration is NEVER stronger than self-declared,
        // however well signed.
        assert_eq!(check.grade_ceiling, grade);
    }
}

#[test]
fn tampered_and_foreign_profiles_fail() {
    let issuer_key = KeyPair::seeded(Suite::Ed25519, b"profile-issuer").unwrap();
    let impostor = KeyPair::seeded(Suite::Ed25519, b"impostor").unwrap();
    let graph = graph_with("samr", &issuer_key);

    let signed = SignedProfile::issue(manifest(IssuerClass::Law), "samr", &issuer_key).unwrap();
    let mut tampered = signed.clone();
    tampered.manifest.issuer_class = IssuerClass::Attestation; // class swap under the signature
    assert!(tampered.verify(&graph).is_err());

    let foreign = SignedProfile::issue(manifest(IssuerClass::Law), "samr", &impostor).unwrap();
    assert!(foreign.verify(&graph).is_err());
}

// The signature stands over the profile as one line of JSON.
#[test]
fn profiles_are_signed_in_serialized_form() {
    let key = KeyPair::seeded(Suite::Ed25519, b"profile-issuer").unwrap();
    let mut quoted = manifest(IssuerClass::Law);
    quoted.id = "a \"quoted\" id".into();
    let signed = SignedProfile::issue(quoted, "samr", &key).unwrap();
    let text = r#"{"id":"a \"quoted\" id","issuer_class":"law","data_points":[{"scheme":"untded","code":"1005"}]}"#;
    let slot = SignatureSlot::sign(&key, SigningDomain::Profile, text.as_bytes()).unwrap();
    assert_eq!(signed.signature, slot);

    let mut bare = manifest(IssuerClass::Treaty);
    bare.content = String::new();
    let signed = SignedProfile::issue(bare, "samr", &key).unwrap();
    let text = r#"{"id":"urn:unidpp:profile:test","issuer_class":"treaty"}"#;
    let slot = SignatureSlot::sign(&key, SigningDomain::Profile, text.as_bytes()).unwrap();
    assert_eq!(signed.signature, slot);
}
