use unidpp_signatif::graph::{
    AnchorBundle, DelegationCredential, DelegationNode, KeyDirectory, MasterList, MasterListEntry,
    NodeId, NodeKind, RegisteredKey, TrustGraph, TrustList, WitnessAttestation,
};
use unidpp_signatif::keyring::{KeyId, KeyPair};
use unidpp_signatif::maps::TextMap;
use unidpp_signatif::scope::{DelegationScope, ScopeCondition, ScopeRequest};
use unidpp_signatif::sets::StringSet;
use unidpp_signatif::sign::Suite;
use unidpp_signatif::time::{Interval, Timestamp};
use unidpp_signatif::SignatifError;

fn t(secs: i64) -> Timestamp {
    Timestamp::from_secs(secs)
}

struct Fixture {
    graph: TrustGraph,
    root: NodeId,
    mid: NodeId,
    end: NodeId,
    root_key: KeyPair,
    mid_key: KeyPair,
    end_key: KeyPair,
}

fn fixture() -> Fixture {
    let root = NodeId::new("eu-root").unwrap();
    let mid = NodeId::new("eu-notified").unwrap();
    let end = NodeId::new("issuer-key-a").unwrap();
    let root_key = KeyPair::seeded(Suite::Ed25519, b"root").unwrap();
    let mid_key = KeyPair::seeded(Suite::EcdsaP256, b"mid").unwrap();
    let end_key = KeyPair::seeded(Suite::Ed25519, b"end").unwrap();

    let mut graph = TrustGraph::new();
    let mut root_node = DelegationNode::new(root.clone(), NodeKind::Root);
    root_node.register(RegisteredKey::of(&root_key));
    graph.add_node(root_node);
    let mut mid_node = DelegationNode::new(mid.clone(), NodeKind::Delegated);
    mid_node.register(RegisteredKey::of(&mid_key));
    graph.add_node(mid_node);
    let mut end_node = DelegationNode::new(end.clone(), NodeKind::End);
    end_node.register(RegisteredKey::of(&end_key));
    graph.add_node(end_node);

    let wide = DelegationScope::unconstrained()
        .authority(&["eu"])
        .product_group(&["batteries", "electronics"]);
    let narrow = DelegationScope::unconstrained()
        .authority(&["eu"])
        .product_group(&["batteries"]);
    let e1 = DelegationCredential::mint_sign(&root, &mid, wide, &root_key).unwrap();
    let e2 = DelegationCredential::mint_sign(&mid, &end, narrow, &mid_key).unwrap();
    graph.add_edge(e1).unwrap();
    graph.add_edge(e2).unwrap();
    Fixture {
        graph,
        root,
        mid,
        end,
        root_key,
        mid_key,
        end_key,
    }
}

fn bundle(fx: &Fixture) -> AnchorBundle {
    let mut list = TrustList::new("EU");
    list.trust(fx.root.clone(), t(0));
    let w1 = NodeId::new("witness-1").unwrap();
    let w2 = NodeId::new("witness-2").unwrap();
    let w3 = NodeId::new("witness-3").unwrap();
    let k1 = KeyPair::seeded(Suite::Ed25519, b"w1").unwrap();
    let k2 = KeyPair::seeded(Suite::Ed25519, b"w2").unwrap();
    let k3 = KeyPair::seeded(Suite::Ed25519, b"w3").unwrap();
    let mut witnesses = TextMap::new();
    witnesses.insert(w1.as_str(), *k1.public());
    witnesses.insert(w2.as_str(), *k2.public());
    witnesses.insert(w3.as_str(), *k3.public());
    let mut master = MasterList::new(2, witnesses);
    let mut entry = MasterListEntry {
        node: fx.root.clone(),
        attestations: vec![
            WitnessAttestation::mint_sign(&w1, &fx.root, t(0), &k1).unwrap(),
            WitnessAttestation::mint_sign(&w2, &fx.root, t(0), &k2).unwrap(),
        ],
    };
    // A third attestation with the wrong key must not count.
    entry
        .attestations
        .push(WitnessAttestation::mint_sign(&w3, &fx.root, t(0), &k1).unwrap());
    master.upsert(entry);
    AnchorBundle {
        jurisdiction: "EU".into(),
        trust_lists: vec![list],
        master,
    }
}

#[test]
fn resolve_in_scope_path() {
    let fx = fixture();
    let b = bundle(&fx);
    let req = ScopeRequest::new("eu", "urn:unidpp:profile:eu-batt@3", "batteries", t(500));
    let path = fx.graph.resolve(fx.end_key.key_id(), &req, &b).unwrap();
    assert_eq!(path.root, fx.root);
    assert_eq!(path.end, fx.end);
    assert_eq!(path.hops(), 2);
    assert!(path.effective_scope.matches(&req));
    // The wider grant survives in the first credential, narrowed by
    // the second.
    assert_eq!(
        path.credentials[0].scope.product_group,
        unidpp_signatif::scope::LayerConstraint::only(&["batteries", "electronics"])
    );
}

#[test]
fn resolve_out_of_scope_product_group_fails() {
    let fx = fixture();
    let b = bundle(&fx);
    let req = ScopeRequest::new("eu", "urn:unidpp:profile:eu-batt@3", "textiles", t(500));
    let err = fx.graph.resolve(fx.end_key.key_id(), &req, &b).unwrap_err();
    match err {
        SignatifError::ScopeExcluded { key_id, detail } => {
            assert_eq!(key_id, fx.end_key.key_id().to_string());
            assert!(detail.contains("product-group"), "{detail}");
        }
        other => panic!("expected ScopeExcluded, got {other:?}"),
    }
}

#[test]
fn resolve_rejects_forged_credential() {
    let fx = fixture();
    let b = bundle(&fx);
    // Replace the mid->end credential with one signed by a rogue key.
    let rogue = KeyPair::seeded(Suite::EcdsaP256, b"rogue").unwrap();
    let forged = DelegationCredential::mint_sign(
        &fx.mid,
        &fx.end,
        DelegationScope::unconstrained()
            .authority(&["eu"])
            .product_group(&["batteries"]),
        &rogue,
    )
    .unwrap();
    let mut g = fx.graph.clone();
    g.truncate_edges_for_test(0);
    g.add_edge(fx.graph.edges()[0].clone()).unwrap();
    g.add_edge(forged).unwrap();
    let req = ScopeRequest::new("eu", "urn:unidpp:profile:eu-batt@3", "batteries", t(500));
    let err = g.resolve(fx.end_key.key_id(), &req, &b).unwrap_err();
    assert!(matches!(
        err,
        SignatifError::CredentialSignatureInvalid { .. }
    ));
    // The direct-path variant must also fail when the *first* hop
    // is forged.
    let rogue2 = KeyPair::seeded(Suite::Ed25519, b"rogue2").unwrap();
    let mut g2 = fx.graph.clone();
    g2.truncate_edges_for_test(0);
    let forged2 = DelegationCredential::mint_sign(
        &fx.root,
        &fx.mid,
        DelegationScope::unconstrained()
            .authority(&["eu"])
            .product_group(&["batteries", "electronics"]),
        &rogue2,
    )
    .unwrap();
    g2.add_edge(forged2).unwrap();
    g2.add_edge(fx.graph.edges()[1].clone()).unwrap();
    assert!(matches!(
        g2.resolve(fx.end_key.key_id(), &req, &b),
        Err(SignatifError::CredentialSignatureInvalid { .. })
    ));
}

#[test]
fn dag_enforced_and_unknown_nodes_rejected() {
    let fx = fixture();
    let mut g = fx.graph.clone();
    // end -> mid would close a cycle.
    let back = DelegationCredential::mint_sign(
        &fx.end,
        &fx.mid,
        DelegationScope::unconstrained(),
        &fx.end_key,
    )
    .unwrap();
    assert!(matches!(
        g.add_edge(back),
        Err(SignatifError::Validation(_))
    ));
    let ghost = NodeId::new("ghost").unwrap();
    let e = DelegationCredential::mint_sign(
        &ghost,
        &fx.mid,
        DelegationScope::unconstrained(),
        &fx.root_key,
    )
    .unwrap();
    assert!(matches!(g.add_edge(e), Err(SignatifError::Unknown { .. })));
    let unsig = DelegationCredential {
        parent: fx.root.clone(),
        child: fx.mid.clone(),
        scope: DelegationScope::unconstrained(),
        signatures: vec![],
    };
    assert!(matches!(
        g.add_edge(unsig),
        Err(SignatifError::CredentialSignatureInvalid { .. })
    ));
}

#[test]
fn threshold_group_quorum_on_credentials() {
    let group = NodeId::new("root-group").unwrap();
    let child = NodeId::new("child").unwrap();
    let m1 = KeyPair::seeded(Suite::EcdsaP256, b"m1").unwrap();
    let m2 = KeyPair::seeded(Suite::EcdsaP256, b"m2").unwrap();
    let m3 = KeyPair::seeded(Suite::EcdsaP256, b"m3").unwrap();
    let mut gnode = DelegationNode::new(
        group.clone(),
        NodeKind::ThresholdGroup {
            threshold: 2,
            members: StringSet::of(&["m1", "m2"]),
        },
    );
    gnode.register(RegisteredKey::of(&m1));
    gnode.register(RegisteredKey::of(&m2));
    gnode.register(RegisteredKey::of(&m3));
    let mut graph = TrustGraph::new();
    graph.add_node(gnode);
    let mut cnode = DelegationNode::new(child.clone(), NodeKind::Delegated);
    let ckey = KeyPair::seeded(Suite::Ed25519, b"ck").unwrap();
    cnode.register(RegisteredKey::of(&ckey));
    graph.add_node(cnode);

    // One member signature: below quorum.
    let one = DelegationCredential::mint_sign(
        &group,
        &child,
        DelegationScope::unconstrained().authority(&["eu"]),
        &m1,
    )
    .unwrap();
    assert!(matches!(
        graph.verify_credential(&one),
        Err(SignatifError::CredentialSignatureInvalid { .. })
    ));
    // Two distinct members: quorate (even multi-suite).
    let mut two = one.clone();
    two.co_sign_by(&m3).unwrap();
    assert!(graph.verify_credential(&two).is_ok());
    // Same member signing twice does not reach quorum.
    let mut twice = one.clone();
    twice.co_sign_by(&m1).unwrap();
    assert!(matches!(
        graph.verify_credential(&twice),
        Err(SignatifError::CredentialSignatureInvalid { .. })
    ));
}

#[test]
fn master_list_quorum_and_trust_list_timing() {
    let fx = fixture();
    let mut b = bundle(&fx);
    // Two verifying witnesses: accepted (m=2).
    assert!(b.accepts_root(&fx.root, t(10)).is_ok());
    // Drop two attestations (the third was signed with the wrong
    // key and never counted): below quorum.
    let mut entry = b.master.entries.remove(fx.root.as_str()).unwrap();
    entry.attestations.pop();
    entry.attestations.pop();
    b.master.upsert(entry);
    assert!(matches!(
        b.accepts_root(&fx.root, t(10)),
        Err(SignatifError::Trust(_))
    ));
    // Trust list superseded: not in force past the moment.
    let mut b2 = bundle(&fx);
    b2.trust_lists[0].supersede(&fx.root, t(1000));
    assert!(matches!(
        b2.accepts_root(&fx.root, t(2000)),
        Err(SignatifError::Trust(_))
    ));
    assert!(b2.accepts_root(&fx.root, t(999)).is_ok());
    // Unknown root.
    let ghost = NodeId::new("ghost-root").unwrap();
    assert!(matches!(
        b2.accepts_root(&ghost, t(1)),
        Err(SignatifError::Trust(_))
    ));
}

#[test]
fn key_directory_and_node_for_key() {
    let fx = fixture();
    let dir = fx.graph.key_directory();
    assert_eq!(dir.len(), 3);
    assert!(dir.resolve(fx.end_key.key_id()).is_some());
    assert_eq!(
        fx.graph.node_for_key(fx.mid_key.key_id()),
        Some(fx.mid.clone())
    );
    let unknown = KeyId::new("k-0000000000000000").unwrap();
    assert!(fx.graph.node_for_key(&unknown).is_none());
    assert!(matches!(
        fx.graph.resolve(
            &unknown,
            &ScopeRequest::new("eu", "p@1", "batteries", t(1)),
            &bundle(&fx)
        ),
        Err(SignatifError::NoTrustPath { .. })
    ));
}

#[test]
fn window_scope_narrows_on_path() {
    let fx = fixture();
    let mut g = fx.graph.clone();
    // Re-issue mid->end with a bounded window.
    let scoped = DelegationScope::unconstrained()
        .authority(&["eu"])
        .product_group(&["batteries"])
        .within(Interval::between(t(100), t(200)).unwrap());
    let cred = DelegationCredential::mint_sign(&fx.mid, &fx.end, scoped, &fx.mid_key).unwrap();
    g.truncate_edges_for_test(0);
    g.add_edge(fx.graph.edges()[0].clone()).unwrap();
    g.add_edge(cred).unwrap();
    let b = bundle(&fx);
    let inside = ScopeRequest::new("eu", "p@1", "batteries", t(150));
    assert!(g.resolve(fx.end_key.key_id(), &inside, &b).is_ok());
    let outside = ScopeRequest::new("eu", "p@1", "batteries", t(500));
    let err = g.resolve(fx.end_key.key_id(), &outside, &b).unwrap_err();
    assert!(matches!(err, SignatifError::ScopeExcluded { .. }));
}

#[test]
fn resolve_enforces_scope_conditions() {
    let fx = fixture();
    let mut g = fx.graph.clone();
    // Re-issue mid->end with an executable attribute condition: the
    // delegation only covers LFP batteries.
    let scoped = DelegationScope::unconstrained()
        .authority(&["eu"])
        .product_group(&["batteries"])
        .condition(ScopeCondition::Attribute {
            key: "battery-chemistry".into(),
            allowed_values: StringSet::of(&["lfp"]),
        });
    let cred = DelegationCredential::mint_sign(&fx.mid, &fx.end, scoped, &fx.mid_key).unwrap();
    g.truncate_edges_for_test(0);
    g.add_edge(fx.graph.edges()[0].clone()).unwrap();
    g.add_edge(cred).unwrap();
    let b = bundle(&fx);

    // Condition met (attribute recorded, allowed value): path resolves
    // and the effective scope carries the condition.
    let ok = ScopeRequest::new("eu", "p@1", "batteries", t(500))
        .with_attribute("battery-chemistry", "lfp");
    let path = g.resolve(fx.end_key.key_id(), &ok, &b).unwrap();
    assert_eq!(path.effective_scope.conditions.len(), 1);

    // Condition failed (wrong value): the typed failure reason.
    let wrong = ScopeRequest::new("eu", "p@1", "batteries", t(500))
        .with_attribute("battery-chemistry", "nmc");
    match g.resolve(fx.end_key.key_id(), &wrong, &b).unwrap_err() {
        SignatifError::ScopeConditionFailed { condition } => {
            assert!(matches!(condition, ScopeCondition::Attribute { .. }));
        }
        other => panic!("expected ScopeConditionFailed, got {other:?}"),
    }

    // Condition unresolvable (attribute not carried): fails closed.
    let bare = ScopeRequest::new("eu", "p@1", "batteries", t(500));
    assert!(matches!(
        g.resolve(fx.end_key.key_id(), &bare, &b).unwrap_err(),
        SignatifError::ScopeConditionFailed { .. }
    ));

    // Predicate conditions consult the request's recorded outcomes.
    let mut g2 = fx.graph.clone();
    let scoped_pred = DelegationScope::unconstrained()
        .authority(&["eu"])
        .product_group(&["batteries"])
        .condition(ScopeCondition::Predicate {
            expression_ref: "urn:rule:audit".into(),
        });
    let cred2 =
        DelegationCredential::mint_sign(&fx.mid, &fx.end, scoped_pred, &fx.mid_key).unwrap();
    g2.truncate_edges_for_test(0);
    g2.add_edge(fx.graph.edges()[0].clone()).unwrap();
    g2.add_edge(cred2).unwrap();
    assert!(g2
        .resolve(
            fx.end_key.key_id(),
            &ScopeRequest::new("eu", "p@1", "batteries", t(500))
                .with_predicate("urn:rule:audit", true),
            &b
        )
        .is_ok());
    assert!(matches!(
        g2.resolve(
            fx.end_key.key_id(),
            &ScopeRequest::new("eu", "p@1", "batteries", t(500))
                .with_predicate("urn:rule:audit", false),
            &b
        )
        .unwrap_err(),
        SignatifError::ScopeConditionFailed { .. }
    ));
}

#[test]
fn directories_list_each_key_once() {
    let a = KeyPair::seeded(Suite::Ed25519, b"a").ok().unwrap();
    let b = KeyPair::seeded(Suite::Ed25519, b"b").ok().unwrap();
    let mut dir = KeyDirectory::new();
    assert!(dir.is_empty());
    for key in [&a, &b, &a] {
        dir.register(key.public());
    }
    assert_eq!(dir.len(), 2);
    let mut ids = vec![a.key_id().to_string(), b.key_id().to_string()];
    ids.sort();
    assert_eq!(dir.key_ids(), ids);
    assert_eq!(dir.resolve(a.key_id()), Some(a.public()));
}

#[test]
fn nodes_stay_under_the_id_they_were_added_under() {
    let id = |raw: &str| NodeId::new(raw).unwrap();
    let mut graph = TrustGraph::new();
    graph.add_node(DelegationNode::new(id("b"), NodeKind::Delegated));
    graph.add_node(DelegationNode::new(id("a"), NodeKind::Delegated));
    graph.node_mut(&id("a")).unwrap().id = id("z");
    assert_eq!(graph.node(&id("a")).unwrap().id, id("z"));
    assert!(graph.node(&id("z")).is_none());
    let ids: Vec<NodeId> = graph.nodes().iter().map(|n| n.id.clone()).collect();
    assert_eq!(ids, vec![id("z"), id("b")]);
    // The place is taken by the id it was added under.
    graph.add_node(DelegationNode::new(id("a"), NodeKind::Delegated));
    assert_eq!(graph.node_count(), 2);
    graph.add_node(DelegationNode::new(id("z"), NodeKind::Delegated));
    assert_eq!(graph.node_count(), 3);
}
