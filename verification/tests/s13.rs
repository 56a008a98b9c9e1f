use unidpp_signatif::exchange::{S13Request, S13Response};
use unidpp_signatif::graph::{DelegationNode, NodeId, NodeKind, RegisteredKey, TrustGraph};
use unidpp_signatif::keyring::{KeyId, KeyPair};
use unidpp_signatif::s13::{
    NonRepudiableResponse, S13Journal, S13JournalEntry, S13Side, SignedS13Request,
    SignedS13Response,
};
use unidpp_signatif::segments::{PolicyObject, RevealClass};
use unidpp_signatif::sign::Suite;

fn graph_with(nodes: &[(&str, &KeyPair)]) -> TrustGraph {
    let mut graph = TrustGraph::new();
    for (id, key) in nodes {
        let mut node = DelegationNode::new(NodeId::new(id).unwrap(), NodeKind::Delegated);
        node.register(RegisteredKey {
            key_id: KeyId::of(key.public()),
            public: *key.public(),
        });
        graph.add_node(node);
    }
    graph
}

fn policy(reveal: RevealClass) -> PolicyObject {
    PolicyObject {
        policy_id: "p-test".into(),
        version: 1,
        authority: "cn-samr".into(),
        readers: vec![],
        verifiers: vec!["any-verifier".into()],
        writers: vec![],
        reveal,
        suites: vec!["sm2".into()],
        valid_from: "2027-01-01T00:00:00Z".into(),
        valid_to: None,
        superseded_by: None,
    }
}

fn request(at: &str) -> S13Request {
    S13Request {
        verifier: "de-zoll".into(),
        subject: "urn:unidpp:passport:pack-0001".into(),
        profile: "urn:unidpp:profile:eu-battery".into(),
        segment: "cn-dynamic".into(),
        at: at.into(),
    }
}

fn exchange(
    req: S13Request,
    pol: &PolicyObject,
    verifier_key: &KeyPair,
    custodian_key: &KeyPair,
) -> (S13JournalEntry, S13JournalEntry) {
    let signed_req =
        SignedS13Request::issue(req, "de-zoll", verifier_key).expect("sign request");
    let resp = S13Response::evaluate(&signed_req.request, pol, "weilian-shenzhen");
    let signed_resp = SignedS13Response::issue(resp, custodian_key).expect("sign response");
    (
        S13JournalEntry::Request(signed_req),
        S13JournalEntry::Response(signed_resp),
    )
}

fn cast() -> (TrustGraph, KeyPair, KeyPair) {
    let verifier = KeyPair::seeded(Suite::Ed25519, b"s13/de-zoll").unwrap();
    let custodian = KeyPair::seeded(Suite::Ed25519, b"s13/weilian").unwrap();
    let graph = graph_with(&[
        ("de-zoll", &verifier),
        ("weilian-shenzhen", &custodian),
        (
            "cn-samr",
            &KeyPair::seeded(Suite::Ed25519, b"s13/cn-samr").unwrap(),
        ),
    ]);
    (graph, verifier, custodian)
}

fn authority_key() -> KeyPair {
    KeyPair::seeded(Suite::Ed25519, b"s13/cn-samr").unwrap()
}

// all four outcomes (plus the stated denial)
// replay from the journals alone — both sides' journals.
#[test]
fn all_outcomes_replay_from_the_journal_alone() {
    let (graph, vkey, ckey) = cast();
    let cases = [
        (RevealClass::Open, "permit"),
        (RevealClass::PairingGated, "permit-paired"),
        (RevealClass::OriginSealed, "attestation-offer"),
        (RevealClass::Escrowed, "escalation"),
    ];
    let mut verifier_journal = S13Journal::new(S13Side::Verifier);
    let mut custodian_journal = S13Journal::new(S13Side::Custodian);
    for (i, (reveal, _token)) in cases.iter().enumerate() {
        let (q, a) = exchange(
            request(&format!("2030-06-01T08:0{i}:00Z")),
            &policy(*reveal),
            &vkey,
            &ckey,
        );
        verifier_journal.append(q.clone());
        verifier_journal.append(a.clone());
        custodian_journal.append(q);
        custodian_journal.append(a);
    }
    // Plus a stated denial for an unlisted verifier.
    let mut closed = policy(RevealClass::Open);
    closed.verifiers = vec!["cn-customs".into()];
    let (q, a) = exchange(request("2030-06-01T08:05:00Z"), &closed, &vkey, &ckey);
    verifier_journal.append(q.clone());
    verifier_journal.append(a.clone());
    custodian_journal.append(q);
    custodian_journal.append(a);

    for journal in [&verifier_journal, &custodian_journal] {
        let decisions = journal.replay(&graph).expect("replay");
        assert_eq!(decisions.len(), 5, "{:?}", journal.side);
        let tokens: Vec<&str> = decisions.iter().map(|d| d.outcome.as_str()).collect();
        assert_eq!(
            tokens,
            [
                "permit",
                "permit-paired",
                "attestation-offer",
                "escalation",
                "deny"
            ],
            "{:?}",
            journal.side
        );
        for d in &decisions {
            assert_eq!(d.governing_policy, "p-test");
            assert_eq!(d.governing_policy_version, 1);
        }
    }
}

// SG-8: the decision is a versioned function of (request,
// policy version) — same inputs, same canonical answer bytes,
// and the journal replay reproduces the live decision.
#[test]
fn decisions_are_deterministic_and_replayable() {
    let (graph, vkey, ckey) = cast();
    let pol = policy(RevealClass::OriginSealed);
    let req = request("2030-06-01T08:00:00Z");
    let live1 = S13Response::evaluate(&req, &pol, "weilian-shenzhen");
    let live2 = S13Response::evaluate(&req, &pol, "weilian-shenzhen");
    assert_eq!(live1.canonical_bytes(), live2.canonical_bytes());
    let (q, a) = exchange(req, &pol, &vkey, &ckey);
    let mut journal = S13Journal::new(S13Side::Custodian);
    journal.append(q);
    journal.append(a);
    let decisions = journal.replay(&graph).expect("replay");
    assert_eq!(decisions.len(), 1);
    assert_eq!(decisions[0].outcome, live1.outcome.token());
    assert_eq!(decisions[0].governing_policy, live1.governing_policy);
}

// Tampering fails replay loudly: a swapped policy version under
// the custodian's signature.
#[test]
fn tampered_journal_entries_fail_replay() {
    let (graph, vkey, ckey) = cast();
    let (q, a) = exchange(
        request("2030-06-01T08:00:00Z"),
        &policy(RevealClass::Open),
        &vkey,
        &ckey,
    );
    let S13JournalEntry::Response(mut signed) = a else {
        unreachable!()
    };
    signed.response.governing_policy_version = 2;
    let mut journal = S13Journal::new(S13Side::Custodian);
    journal.append(q);
    journal.append(S13JournalEntry::Response(signed));
    assert!(journal.replay(&graph).is_err());
}

// Offers and refusals carry the policy AUTHORITY's
// counter-signature; a dispute is decided from the record.
#[test]
fn offers_carry_the_authoritys_signature_and_replay_from_the_record() {
    let (graph, vkey, ckey) = cast();
    let pol = policy(RevealClass::OriginSealed);
    let req = request("2030-06-01T08:00:00Z");
    let signed_req = SignedS13Request::issue(req, "de-zoll", &vkey).unwrap();
    let resp = S13Response::evaluate(&signed_req.request, &pol, "weilian-shenzhen");
    let signed_resp = SignedS13Response::issue(resp, &ckey).unwrap();
    let nr = NonRepudiableResponse::issue(signed_resp, "cn-samr", &authority_key(), 1).unwrap();
    assert!(nr.verify(&graph, 1).is_ok());

    // The dispute is decided from the record: the journal
    // replays the countersigned exchange, both signatures
    // verified, the decision and its governing policy named.
    let mut journal = S13Journal::new(S13Side::Custodian);
    journal.append(S13JournalEntry::Request(signed_req));
    journal.append(S13JournalEntry::Countersigned(nr));
    let decisions = journal.replay(&graph).expect("replay");
    assert_eq!(decisions.len(), 1);
    assert_eq!(decisions[0].outcome, "attestation-offer");
    assert_eq!(decisions[0].governing_policy, "p-test");
}

// a forged offer (the custodian's key pretending
// to the authority's counter-signature) fails.
#[test]
fn forged_offers_fail_signature() {
    let (graph, vkey, ckey) = cast();
    let pol = policy(RevealClass::OriginSealed);
    let req = request("2030-06-01T08:00:00Z");
    let signed_req = SignedS13Request::issue(req, "de-zoll", &vkey).unwrap();
    let resp = S13Response::evaluate(&signed_req.request, &pol, "weilian-shenzhen");
    let signed_resp = SignedS13Response::issue(resp, &ckey).unwrap();
    let forged = NonRepudiableResponse::issue(signed_resp, "cn-samr", &ckey, 1).unwrap();
    assert!(forged.verify(&graph, 1).is_err());
}

// a replayed offer fails the sequence.
#[test]
fn replayed_offers_fail_sequence() {
    let (graph, vkey, ckey) = cast();
    let pol = policy(RevealClass::OriginSealed);
    let req = request("2030-06-01T08:00:00Z");
    let signed_req = SignedS13Request::issue(req, "de-zoll", &vkey).unwrap();
    let resp = S13Response::evaluate(&signed_req.request, &pol, "weilian-shenzhen");
    let signed_resp = SignedS13Response::issue(resp, &ckey).unwrap();
    let nr = NonRepudiableResponse::issue(signed_resp, "cn-samr", &authority_key(), 1).unwrap();

    // Direct: stale sequence is a replay.
    assert!(nr.verify(&graph, 2).is_err());

    // Through the journal: the same countersigned answer twice.
    let mut journal = S13Journal::new(S13Side::Custodian);
    journal.append(S13JournalEntry::Request(signed_req));
    journal.append(S13JournalEntry::Countersigned(nr.clone()));
    journal.append(S13JournalEntry::Countersigned(nr));
    assert!(journal.replay(&graph).is_err());
}

// An answer bound to no journaled request is rejected at replay.
#[test]
fn unbound_answers_fail_replay() {
    let (graph, vkey, ckey) = cast();
    let (_, a) = exchange(
        request("2030-06-01T08:00:00Z"),
        &policy(RevealClass::Open),
        &vkey,
        &ckey,
    );
    let mut journal = S13Journal::new(S13Side::Custodian);
    journal.append(a);
    assert!(journal.replay(&graph).is_err());
}

// The authority answers for the answer itself: under its countersignature no
// other answer of the custodian stands.
#[test]
fn countersignatures_bind_the_answer() {
    let (graph, _, ckey) = cast();
    let req = request("2030-06-01T08:00:00Z");
    let offer = S13Response::evaluate(&req, &policy(RevealClass::OriginSealed), "weilian-shenzhen");
    let permit = S13Response::evaluate(&req, &policy(RevealClass::Open), "weilian-shenzhen");
    assert_ne!(offer.digest(), permit.digest());
    let offered = SignedS13Response::issue(offer, &ckey).unwrap();
    let permitted = SignedS13Response::issue(permit, &ckey).unwrap();
    let nr = NonRepudiableResponse::issue(offered, "cn-samr", &authority_key(), 1).unwrap();
    assert!(nr.verify(&graph, 1).is_ok());
    let mut swapped = nr;
    swapped.signed = permitted;
    assert!(swapped.signed.verify(&graph).is_ok());
    assert!(swapped.verify(&graph, 1).is_err());
}

// Each segment of a passport has its own sequence.
#[test]
fn sequences_run_by_segment() {
    let (graph, vkey, ckey) = cast();
    let pol = policy(RevealClass::OriginSealed);
    let mut journal = S13Journal::new(S13Side::Custodian);
    let mut other = request("2030-06-01T08:00:00Z");
    other.segment = "cn-static".into();
    let asked = [
        (request("2030-06-01T08:00:00Z"), 1),
        (other, 1),
        (request("2030-06-02T08:00:00Z"), 2),
    ];
    for (req, place) in asked {
        let q = SignedS13Request::issue(req, "de-zoll", &vkey).unwrap();
        let a = S13Response::evaluate(&q.request, &pol, "weilian-shenzhen");
        let signed = SignedS13Response::issue(a, &ckey).unwrap();
        let nr = NonRepudiableResponse::issue(signed, "cn-samr", &authority_key(), place).unwrap();
        journal.append(S13JournalEntry::Request(q));
        journal.append(S13JournalEntry::Countersigned(nr));
    }
    assert_eq!(journal.replay(&graph).expect("replay").len(), 3);
}
