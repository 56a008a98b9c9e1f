use unidpp_signatif::anchor::TransparencyLog;
use unidpp_signatif::digest::Hash32;
use unidpp_signatif::grid::{SignedPolicy, SignedSpine};
use unidpp_signatif::keyring::KeyPair;
use unidpp_signatif::maps::TextMap;
use unidpp_signatif::segments::{PolicyObject, RevealClass, Segment, Spine};
use unidpp_signatif::sign::Suite;
use unidpp_signatif::spine_anchor::{anchor_spine, SpineReceipt};
use unidpp_signatif::time::Timestamp;

fn spine() -> SignedSpine {
    let custodian = KeyPair::seeded(Suite::Ed25519, b"anchor/custodian").unwrap();
    let mut commitments = TextMap::new();
    commitments.insert(
        "eu-static",
        Segment::commit_state(b"cell_model=H-2231"),
    );
    commitments.insert(
        "cn-dynamic",
        Segment::commit_state(b"cycle_count=412"),
    );
    let policy = PolicyObject {
        policy_id: "p".into(),
        version: 1,
        authority: "cn-samr".into(),
        readers: vec![],
        verifiers: vec![],
        writers: vec![],
        reveal: RevealClass::Open,
        suites: vec![],
        valid_from: "2027-01-01T00:00:00Z".into(),
        valid_to: None,
        superseded_by: None,
    };
    let _ = SignedPolicy::issue(policy, &custodian); // keys warmed
    SignedSpine::issue(Spine::over(1, commitments), "weilian-shenzhen", &custodian).unwrap()
}

// the spine root of a subject appears as a log
// commitment with a re-servable receipt.
#[test]
fn the_spine_root_appears_as_a_log_commitment_with_a_reservable_receipt() {
    let operator = KeyPair::seeded(Suite::Ed25519, b"anchor/operator").unwrap();
    let mut log = TransparencyLog::new("unidpp-main");
    let anchored = spine();
    let seq = anchor_spine(&mut log, &anchored);
    let at = Timestamp::from_secs(1_900_000_000);

    let first = SpineReceipt::serve(&log, seq, at, &operator).unwrap();
    assert_eq!(first.spine_digest, Hash32(anchored.spine.digest()));
    assert!(first.verify(operator.public()).is_ok());

    // Re-servable: a second serving after growth still proves the
    // same leaf (the tree extends; the proof re-derives).
    let mut grown = spine();
    grown.spine.version = 2;
    anchor_spine(&mut log, &grown);
    let second = SpineReceipt::serve(&log, seq, at, &operator).unwrap();
    assert_eq!(second.spine_digest, first.spine_digest);
    assert_eq!(second.seq, first.seq);
    assert!(second.verify(operator.public()).is_ok());
    assert_eq!(second.head.tree_size, 2);
}

// A spine never anchored yields no receipt — stated, not silent.
#[test]
fn unanchored_spines_have_no_receipt_stated() {
    let operator = KeyPair::seeded(Suite::Ed25519, b"anchor/operator").unwrap();
    let mut log = TransparencyLog::new("unidpp-main");
    let seq = anchor_spine(&mut log, &spine());
    // A second spine anchored elsewhere (or not at all): asking
    // for its leaf is a stated error, never an empty receipt.
    let err = SpineReceipt::serve(&log, seq + 5, Timestamp::from_secs(1), &operator);
    assert!(err.is_err());
    assert!(err.unwrap_err().to_string().contains("no entry"));
}

// A tampered receipt (a different digest under the proof) fails
// offline verification.
#[test]
fn tampered_receipts_fail_offline() {
    let operator = KeyPair::seeded(Suite::Ed25519, b"anchor/operator").unwrap();
    let mut log = TransparencyLog::new("unidpp-main");
    let seq = anchor_spine(&mut log, &spine());
    let mut receipt =
        SpineReceipt::serve(&log, seq, Timestamp::from_secs(1), &operator).unwrap();
    receipt.spine_digest = Hash32([9u8; 32]);
    assert!(receipt.verify(operator.public()).is_err());
}
