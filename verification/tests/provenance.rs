use unidpp_signatif::graph::{DelegationNode, NodeId, NodeKind, RegisteredKey, TrustGraph};
use unidpp_signatif::keyring::{KeyId, KeyPair};
use unidpp_signatif::provenance::{traverse, AncestryEdge, EdgeEvidence, EvidenceKind};
use unidpp_signatif::sign::Suite;
use unidpp_signatif::sovereign::{AttestationStatement, ClaimClass, SovereignAttestation};

fn graph_with(nodes: &[(&str, &KeyPair)]) -> TrustGraph {
    let mut graph = TrustGraph::new();
    for (id, key) in nodes {
        let mut node = DelegationNode::new(NodeId::new(id).unwrap(), NodeKind::Delegated);
        node.register(RegisteredKey {
            key_id: KeyId::of(key.public()),
            public: *key.public(),
        });
        graph.add_node(node);
    }
    graph
}

fn service_key() -> KeyPair {
    KeyPair::seeded(Suite::Ed25519, b"prov/cn-attest").unwrap()
}

fn attestation(service: &KeyPair) -> SovereignAttestation {
    SovereignAttestation::issue(
        AttestationStatement {
            segment: "supplier-dynamic".into(),
            state_commitment: [3u8; 32],
            claim: ClaimClass::Freshness,
            value: "within-window".into(),
            as_of: "2030-06-01T08:00:00Z".into(),
            governing_policy: "supplier-sealed".into(),
            governing_policy_version: 1,
            subject: "urn:unidpp:passport:supplier-module".into(),
        },
        "cn-attestation-service",
        service,
        None,
    )
    .unwrap()
}

fn battery_ancestry() -> Vec<AncestryEdge> {
    vec![
        AncestryEdge {
            ancestor: "urn:unidpp:passport:cell-lot-h2231".into(),
            descendant: "urn:unidpp:passport:pack-0001".into(),
            relationship: "derivation".into(),
        },
        AncestryEdge {
            ancestor: "urn:unidpp:passport:supplier-module".into(),
            descendant: "urn:unidpp:passport:pack-0001".into(),
            relationship: "installation".into(),
        },
        AncestryEdge {
            ancestor: "urn:unidpp:passport:recycled-input".into(),
            descendant: "urn:unidpp:passport:supplier-module".into(),
            relationship: "derivation".into(),
        },
    ]
}

// a mixed chain — open edge, sealed edge, missing
// edge — produces exactly the three-way report.
#[test]
fn a_mixed_chain_produces_the_three_way_report() {
    let service = service_key();
    let trust = graph_with(&[("cn-attestation-service", &service)]);
    let attestation = attestation(&service);
    let edges = battery_ancestry();
    let coverage = traverse(
        "urn:unidpp:passport:pack-0001",
        &edges,
        |edge| {
            if edge.ancestor.contains("cell-lot") {
                EdgeEvidence::Open {
                    bytes: b"lot=H-2231,chemistry=LFP".to_vec(),
                }
            } else if edge.ancestor.contains("supplier-module") {
                EdgeEvidence::Sealed {
                    attestation: attestation.clone(),
                }
            } else {
                EdgeEvidence::Missing {
                    reason: "no admissible evidence: the recycled-input edge is \
                             unresolvable from this verifier"
                        .into(),
                }
            }
        },
        &trust,
    );

    assert_eq!(coverage.edges.len(), 3);
    let by_ancestor = |frag: &str| {
        coverage
            .edges
            .iter()
            .find(|g| g.edge.ancestor.contains(frag))
            .unwrap_or_else(|| panic!("edge for {frag} missing"))
    };
    assert_eq!(
        by_ancestor("cell-lot").coverage,
        EvidenceKind::VerifiedDirect
    );
    assert_eq!(
        by_ancestor("supplier-module").coverage,
        EvidenceKind::AttestedByAuthority
    );
    assert_eq!(
        by_ancestor("recycled-input").coverage,
        EvidenceKind::ExplicitlyUnavailable
    );
    assert!(coverage.summary().contains("verified-direct"));
    assert!(coverage.summary().contains("attested-by-authority"));
    assert!(coverage.summary().contains("explicitly-unavailable"));
}

// A sealed edge whose attestation does not verify is a stated
// gap, never a pass.
#[test]
fn unverified_attestations_are_stated_gaps() {
    let service = service_key();
    let wrong_graph = graph_with(&[(
        "unrelated",
        &KeyPair::seeded(Suite::Ed25519, b"prov/none").unwrap(),
    )]);
    let attestation = attestation(&service);
    let edges = battery_ancestry();
    let coverage = traverse(
        "urn:unidpp:passport:pack-0001",
        &edges,
        |edge| {
            if edge.ancestor.contains("supplier-module") {
                EdgeEvidence::Sealed {
                    attestation: attestation.clone(),
                }
            } else {
                EdgeEvidence::Missing {
                    reason: "not held".into(),
                }
            }
        },
        &wrong_graph,
    );
    let supplier = coverage
        .edges
        .iter()
        .find(|g| g.edge.ancestor.contains("supplier-module"))
        .unwrap();
    assert_eq!(supplier.coverage, EvidenceKind::ExplicitlyUnavailable);
    assert!(supplier.reading.contains("does not verify"));
}

// The walk is visited-safe: a cycle in the edge graph cannot
// loop the traversal.
#[test]
fn cycles_cannot_loop_the_traversal() {
    let cyclic = vec![
        AncestryEdge {
            ancestor: "urn:unidpp:passport:a".into(),
            descendant: "urn:unidpp:passport:b".into(),
            relationship: "derivation".into(),
        },
        AncestryEdge {
            ancestor: "urn:unidpp:passport:b".into(),
            descendant: "urn:unidpp:passport:a".into(),
            relationship: "derivation".into(),
        },
    ];
    let trust = graph_with(&[]);
    let coverage = traverse(
        "urn:unidpp:passport:a",
        &cyclic,
        |_| EdgeEvidence::Missing {
            reason: "gap".into(),
        },
        &trust,
    );
    assert_eq!(coverage.edges.len(), 1, "each edge graded once");
}

#[test]
fn the_ancestry_comes_breadth_first() {
    let step = |ancestor: &str, descendant: &str| AncestryEdge {
        ancestor: ancestor.into(),
        descendant: descendant.into(),
        relationship: "composed-of".into(),
    };
    let graph = [
        step("a", "s"),
        step("b", "s"),
        step("d", "b"),
        step("e", "d"),
        step("c", "a"),
    ];
    let r = traverse(
        "s",
        &graph,
        |_| EdgeEvidence::Missing {
            reason: "gap".into(),
        },
        &TrustGraph::new(),
    );
    let order: Vec<&str> = r.edges.iter().map(|g| g.edge.ancestor.as_str()).collect();
    assert_eq!(order, ["a", "b", "c", "d", "e"]);
    for g in &r.edges {
        assert_eq!(g.coverage, EvidenceKind::ExplicitlyUnavailable);
        assert_eq!(g.reading, "gap");
    }
}
