use unidpp_signatif::confium::bridge::RealCeremony;
use unidpp_signatif::confium::mock::MockCeremony;
use unidpp_signatif::confium::{
    CeremonyCoordinator, CeremonyError, CeremonyKind, CeremonyStatement, Commitment, QuorumSpec,
    SessionInit, SessionState, Share,
};
use unidpp_signatif::graph::NodeId;
use unidpp_signatif::threshold::{hex32, PartialSignature};
use unidpp_signatif::time::Timestamp;

fn t(secs: i64) -> Timestamp {
    Timestamp::from_secs(secs)
}

fn node(id: &str) -> NodeId {
    NodeId::new(id).unwrap()
}

fn quorum(threshold: usize) -> QuorumSpec {
    QuorumSpec {
        quorum_id: node("root-quorum"),
        threshold,
        members: vec![node("m-1"), node("m-2"), node("m-3")],
    }
}

fn init(kind: CeremonyKind, expires_at: Option<Timestamp>) -> SessionInit {
    SessionInit {
        kind,
        statement: CeremonyStatement {
            label: "root statement".into(),
            payload: b"payload".to_vec(),
        },
        quorum: quorum(2),
        expires_at,
    }
}

#[test]
fn quorums_are_validated() {
    assert!(quorum(2).validate().is_ok());
    assert!(quorum(0).validate().is_err());
    assert!(quorum(4).validate().is_err());
    let mut twice = quorum(2);
    twice.members[1] = node("m-1");
    assert!(twice.validate().is_err());
    let mut c = RealCeremony::new(None);
    let mut bad = init(CeremonyKind::Sign, None);
    bad.quorum.threshold = 0;
    assert!(matches!(
        c.create_session(bad),
        Err(CeremonyError::Framework(_))
    ));
}

#[test]
fn a_real_ceremony_signs_under_the_group_key() {
    let mut c = RealCeremony::new(None);
    let start = init(CeremonyKind::Sign, None);
    let statement = start.statement.clone();
    let id = c.create_session(start).unwrap();
    assert_eq!(c.session_state(&id), Some(SessionState::Pending));
    for m in ["m-1", "m-3"] {
        let commitment = c.commitment_for(&id, &node(m)).unwrap();
        c.submit_commitment(&id, commitment).unwrap();
    }
    assert_eq!(
        c.session_state(&id),
        Some(SessionState::CommitmentsCollected)
    );
    for m in ["m-1", "m-3"] {
        let share = c.share_for(&id, &node(m)).unwrap();
        c.submit_share(&id, share).unwrap();
    }
    assert_eq!(c.session_state(&id), Some(SessionState::SharesCollected));
    let signature = c.aggregate(&id).unwrap();
    signature.verify(&statement).unwrap();
    assert_eq!(c.session_state(&id), Some(SessionState::Completed));
    let other = CeremonyStatement {
        label: "root statement".into(),
        payload: b"another payload".to_vec(),
    };
    assert!(signature.verify(&other).is_err());
    assert!(c.abort_proof(&id).is_none());
}

#[test]
fn a_forged_commitment_is_misbehaviour() {
    let mut c = RealCeremony::new(None);
    let id = c.create_session(init(CeremonyKind::Sign, None)).unwrap();
    let forged = Commitment {
        signer: node("m-2"),
        transcript: b"not a nonce point".to_vec(),
    };
    match c.submit_commitment(&id, forged) {
        Err(CeremonyError::Misbehavior(proof)) => assert_eq!(proof.offender, node("m-2")),
        other => panic!("expected misbehaviour, got {other:?}"),
    }
    assert_eq!(c.abort_proof(&id).unwrap().offender, node("m-2"));
    let stranger = Commitment {
        signer: node("stranger"),
        transcript: vec![],
    };
    assert!(c.submit_commitment(&id, stranger).is_err());
}

#[test]
fn rounds_come_in_order() {
    let mut c = RealCeremony::new(None);
    let id = c.create_session(init(CeremonyKind::Sign, None)).unwrap();
    let early = Share {
        signer: node("m-1"),
        material: vec![],
    };
    assert!(matches!(
        c.submit_share(&id, early),
        Err(CeremonyError::WrongRound { .. })
    ));
    assert!(matches!(
        c.aggregate(&id),
        Err(CeremonyError::ThresholdNotMet { have: 0, need: 2 })
    ));
}

#[test]
fn sessions_expire() {
    let mut c = RealCeremony::new(Some(t(10)));
    let id = c
        .create_session(init(CeremonyKind::Sign, Some(t(20))))
        .unwrap();
    let commitment = c.commitment_for(&id, &node("m-1")).unwrap();
    c.set_clock(t(30));
    assert!(matches!(
        c.submit_commitment(&id, commitment),
        Err(CeremonyError::Expired)
    ));
    assert!(matches!(c.aggregate(&id), Err(CeremonyError::Expired)));
}

#[test]
fn the_mock_runs_the_lifecycle() {
    let mut c = MockCeremony::default();
    let start = init(CeremonyKind::Sign, None);
    let statement = start.statement.clone();
    let id = c.create_session(start).unwrap();
    assert_eq!(id.as_str(), "mock-root-quorum-1");
    for m in ["m-1", "m-2"] {
        c.submit_commitment(
            &id,
            Commitment {
                signer: node(m),
                transcript: vec![1],
            },
        )
        .unwrap();
    }
    for m in ["m-1", "m-2"] {
        c.submit_share(
            &id,
            Share {
                signer: node(m),
                material: vec![2],
            },
        )
        .unwrap();
    }
    let signature = c.aggregate(&id).unwrap();
    signature.verify(&statement).unwrap();
    assert_eq!(c.session_state(&id), Some(SessionState::Completed));
}

#[test]
fn the_seed_ignores_the_order_of_the_members() {
    let mut shuffled = quorum(2);
    shuffled.members = vec![node("m-3"), node("m-1"), node("m-2")];
    assert_eq!(
        RealCeremony::ceremony_seed(&quorum(2)),
        RealCeremony::ceremony_seed(&shuffled)
    );
    assert_ne!(
        RealCeremony::ceremony_seed(&quorum(2)),
        RealCeremony::ceremony_seed(&quorum(3))
    );
    let mut a = RealCeremony::new(None);
    let mut b = RealCeremony::new(None);
    let first = a.create_session(init(CeremonyKind::Dkg, None)).unwrap();
    let mut other = init(CeremonyKind::Sign, None);
    other.quorum = shuffled;
    let second = b.create_session(other).unwrap();
    assert_eq!(a.group(&first).unwrap(), b.group(&second).unwrap());
}

#[test]
fn a_forged_partial_names_its_member() {
    let mut c = RealCeremony::new(None);
    let id = c.create_session(init(CeremonyKind::Sign, None)).unwrap();
    for member in ["m-1", "m-2"] {
        let commitment = c.commitment_for(&id, &node(member)).unwrap();
        c.submit_commitment(&id, commitment).unwrap();
    }
    let honest = c.share_for(&id, &node("m-1")).unwrap();
    c.submit_share(&id, honest).unwrap();
    let mut forged = c.share_for(&id, &node("m-2")).unwrap();
    let mut partial = PartialSignature::decode(&forged.material).unwrap();
    partial.partial = hex32(&[7; 32]);
    partial.partial.replace_range(62..64, "00");
    forged.material = partial.encode();
    c.submit_share(&id, forged).unwrap();
    match c.aggregate(&id) {
        Err(CeremonyError::Misbehavior(p)) => assert_eq!(p.offender, node("m-2")),
        other => panic!("expected misbehaviour, got {:?}", other),
    }
    assert_eq!(c.abort_proof(&id).unwrap().offender, node("m-2"));
}

fn commitment(member: &str) -> Commitment {
    Commitment {
        signer: node(member),
        transcript: vec![1],
    }
}

fn share(member: &str) -> Share {
    Share {
        signer: node(member),
        material: vec![2],
    }
}

#[test]
fn the_mock_keeps_the_rounds_apart() {
    let mut c = MockCeremony::default();
    let id = c.create_session(init(CeremonyKind::Sign, None)).unwrap();
    match c.submit_share(&id, share("m-1")) {
        Err(e) => assert_eq!(
            e.to_string(),
            "session `mock-root-quorum-1` is in Pending; cannot submit a round-2 share"
        ),
        Ok(()) => panic!("a share before the commitments"),
    }
    c.submit_commitment(&id, commitment("m-1")).unwrap();
    c.submit_commitment(&id, commitment("m-2")).unwrap();
    assert!(matches!(
        c.submit_commitment(&id, commitment("m-3")),
        Err(CeremonyError::WrongRound { .. })
    ));
    c.submit_share(&id, share("m-1")).unwrap();
    c.submit_share(&id, share("m-2")).unwrap();
    assert!(matches!(
        c.submit_share(&id, share("m-3")),
        Err(CeremonyError::WrongRound { .. })
    ));
    assert!(matches!(
        c.submit_commitment(&id, commitment("m-3")),
        Err(CeremonyError::WrongRound { .. })
    ));
    assert_eq!(c.session_state(&id), Some(SessionState::SharesCollected));
    c.aggregate(&id).unwrap();
    assert!(c.submit_commitment(&id, commitment("m-3")).is_err());
    assert_eq!(c.session_state(&id), Some(SessionState::Completed));
    assert!(c.abort_proof(&id).is_none());
}

#[test]
fn the_mock_keeps_the_proof_of_every_misbehaviour() {
    let mut c = MockCeremony::default();
    let id = c.create_session(init(CeremonyKind::Sign, None)).unwrap();
    c.submit_commitment(&id, commitment("m-1")).unwrap();
    assert!(c.submit_commitment(&id, commitment("m-1")).is_err());
    assert_eq!(
        c.abort_proof(&id).unwrap().offense,
        "double commitment in round 1"
    );
    assert!(c.submit_commitment(&id, commitment("stranger")).is_err());
    assert_eq!(
        c.abort_proof(&id).unwrap().offense,
        "commitment from non-member"
    );
    c.submit_commitment(&id, commitment("m-2")).unwrap();
    assert!(c.submit_share(&id, share("m-3")).is_err());
    assert_eq!(
        c.abort_proof(&id).unwrap().offense,
        "share without a round-1 commitment"
    );
    c.submit_share(&id, share("m-1")).unwrap();
    assert!(c.submit_share(&id, share("m-1")).is_err());
    assert_eq!(c.abort_proof(&id).unwrap().offense, "double share in round 2");
    assert_eq!(c.abort_proof(&id).unwrap().evidence, vec![2]);
}

// Whoever of the members takes part, in whatever order: an honest session
// aggregates.
#[test]
fn honest_sessions_aggregate() {
    for (first, second) in [("m-1", "m-2"), ("m-3", "m-1"), ("m-2", "m-3"), ("m-3", "m-2")] {
        let mut c = RealCeremony::new(None);
        let start = init(CeremonyKind::Sign, None);
        let statement = start.statement.clone();
        let id = c.create_session(start).unwrap();
        for m in [first, second] {
            let commitment = c.commitment_for(&id, &node(m)).unwrap();
            c.submit_commitment(&id, commitment).unwrap();
        }
        for m in [second, first] {
            let share = c.share_for(&id, &node(m)).unwrap();
            c.submit_share(&id, share).unwrap();
        }
        c.aggregate(&id).unwrap().verify(&statement).unwrap();
    }
}

// A quorum keeps the group it was first dealt: a session that asks for another
// threshold under the same id has too few or too many partial signatures for it.
#[test]
fn a_quorum_keeps_its_first_group() {
    let mut c = RealCeremony::new(None);
    c.create_session(init(CeremonyKind::Sign, None)).unwrap();
    let mut other = init(CeremonyKind::Sign, None);
    other.quorum.threshold = 3;
    let id = c.create_session(other).unwrap();
    for m in ["m-1", "m-2", "m-3"] {
        let commitment = c.commitment_for(&id, &node(m)).unwrap();
        c.submit_commitment(&id, commitment).unwrap();
    }
    for m in ["m-1", "m-2", "m-3"] {
        let share = c.share_for(&id, &node(m)).unwrap();
        c.submit_share(&id, share).unwrap();
    }
    assert!(matches!(
        c.aggregate(&id),
        Err(CeremonyError::Framework(_))
    ));
    assert!(c.abort_proof(&id).is_none());
}
