use unidpp_signatif::graph::{DelegationNode, NodeId, NodeKind, RegisteredKey, TrustGraph};
use unidpp_signatif::keyring::{KeyId, KeyPair};
use unidpp_signatif::party::{
    declare_party, intake_permits, party_of, signing_matrix, ObjectClass, PartyClass,
};
use unidpp_signatif::sign::Suite;

// An out-of-class signature is refused at intake with the class named; in-class
// passes for every row.
#[test]
fn the_matrix_admits_and_refuses_by_class() {
    // Every matrix row's allowance passes.
    for (party, objects) in signing_matrix() {
        for object in objects {
            assert!(intake_permits(party, object).is_ok());
        }
    }
    // Out-of-class refusals name both sides.
    let err = intake_permits(PartyClass::Manufacturer, ObjectClass::SegmentPolicy)
        .unwrap_err()
        .to_string();
    assert!(
        err.contains("manufacturer") && err.contains("segment-policy"),
        "{err}"
    );
    let err = intake_permits(PartyClass::ConformityBody, ObjectClass::InteropDeclaration)
        .unwrap_err()
        .to_string();
    assert!(err.contains("conformity-body"), "{err}");
    // The bearer signs nothing yet — stated by the matrix.
    assert!(intake_permits(PartyClass::Bearer, ObjectClass::S13Message).is_err());
    // The pyramid's edges are class-bound: only A (or G, I)
    // accredits; only C attests conformity evidence.
    assert!(intake_permits(
        PartyClass::AccreditationAuthority,
        ObjectClass::Accreditation
    )
    .is_ok());
    assert!(intake_permits(PartyClass::Manufacturer, ObjectClass::Accreditation).is_err());
    assert!(intake_permits(
        PartyClass::ConformityBody,
        ObjectClass::SovereignAttestation
    )
    .is_ok());
    assert!(intake_permits(PartyClass::Verifier, ObjectClass::SovereignAttestation).is_err());
}

// The class is carried on the node and orthogonal to kind.
#[test]
fn party_class_rides_the_node() {
    let key = KeyPair::seeded(Suite::Ed25519, b"party/lab").ok().unwrap();
    let mut node = DelegationNode::new(NodeId::new("cn-bms-lab").unwrap(), NodeKind::Delegated);
    declare_party(&mut node, PartyClass::ConformityBody);
    node.register(RegisteredKey {
        key_id: KeyId::of(key.public()),
        public: *key.public(),
    });
    let mut graph = TrustGraph::new();
    graph.add_node(node);
    assert_eq!(
        party_of(&graph, &NodeId::new("cn-bms-lab").unwrap()),
        Some(PartyClass::ConformityBody)
    );
    // An undeclared node is stated as such.
    let other = DelegationNode::new(NodeId::new("stranger").unwrap(), NodeKind::End);
    let mut g2 = TrustGraph::new();
    g2.add_node(other);
    assert_eq!(party_of(&g2, &NodeId::new("stranger").unwrap()), None);
    // A class can be declared later, in place.
    let id = NodeId::new("stranger").unwrap();
    declare_party(g2.node_mut(&id).unwrap(), PartyClass::Verifier);
    assert_eq!(party_of(&g2, &id), Some(PartyClass::Verifier));
    assert!(g2.node_mut(&NodeId::new("ghost").unwrap()).is_none());
}
