//! A coordinator without threshold cryptography.
//!
//! Its group key is an ordinary key derived from the quorum, and aggregating
//! is an ordinary signature. What it enforces is the lifecycle of sessions,
//! the numbers of messages, membership, and who broke the rules.

use vstd::prelude::*;

use crate::bytes::utf8;
use crate::confium::{
    expired, framework, framework_error, is_session_id, past_expiry, session_id_error,
    AggregatedSignature, CeremonyCoordinator, CeremonyError, CeremonyErrorView, Commitment,
    InitView, MisbehaviorProof, ProofView, SessionId, SessionInit, SessionState, Share,
};
use crate::graph::NodeId;
use crate::keyring::{public_of, seeded_secret, signature_of, KeyPair};
use crate::maps::TextMap;
use crate::sets::StringSet;
use crate::sign::{domain_framed, framed, SigningDomain, Suite};
use crate::text::{cat2, cat4, decimal, number, trimmed};
use crate::time::Timestamp;
use crate::SignatifError;

verus! {

/// A session.
#[derive(Debug, PartialEq, Eq)]
struct MockSession {
    init: SessionInit,
    state: SessionState,
    committed: StringSet,
    shared: StringSet,
    abort: Option<MisbehaviorProof>,
}

/// A session as a mathematical value.
#[verifier::ext_equal]
pub struct MockView {
    /// The request.
    pub init: InitView,
    /// How far it is.
    pub state: SessionState,
    /// The members that committed.
    pub committed: Set<Seq<char>>,
    /// The members that shared.
    pub shared: Set<Seq<char>>,
    /// The proof of the last misbehaviour.
    pub abort: Option<ProofView>,
}

impl View for MockSession {
    type V = MockView;

    closed spec fn view(&self) -> MockView {
        MockView {
            init: self.init@,
            state: self.state,
            committed: self.committed.members(),
            shared: self.shared.members(),
            abort: match self.abort {
                Some(p) => Some(p@),
                None => None,
            },
        }
    }
}

impl MockView {
    /// The session after a misbehaviour.
    pub open spec fn aborted(self, proof_: ProofView) -> MockView {
        MockView { abort: Some(proof_), ..self }
    }

    /// The error of a message that belongs to another round.
    pub open spec fn wrong_round(self, id: Seq<char>, attempted: Seq<char>) -> CeremonyErrorView {
        CeremonyErrorView::WrongRound { session: id, attempted, state: self.state }
    }

    /// The session under a handle after a commitment, and what the member is
    /// told. Commitments are taken until the round is closed.
    pub open spec fn commit(self, id: Seq<char>, signer: Seq<char>, transcript: Seq<u8>) -> (
        MockView,
        Result<(), CeremonyErrorView>,
    ) {
        let outsider = ProofView {
            offender: signer,
            offense: "commitment from non-member"@,
            evidence: transcript,
        };
        let again = ProofView {
            offender: signer,
            offense: "double commitment in round 1"@,
            evidence: transcript,
        };
        let committed = self.committed.insert(signer);
        if self.state != SessionState::Pending {
            (self, Err(self.wrong_round(id, "submit a round-1 commitment"@)))
        } else if !self.init.quorum.members.contains(signer) {
            (self.aborted(outsider), Err(CeremonyErrorView::Misbehavior(outsider)))
        } else if self.committed.contains(signer) {
            (self.aborted(again), Err(CeremonyErrorView::Misbehavior(again)))
        } else if committed.len() >= self.init.quorum.threshold {
            (
                MockView { committed, state: SessionState::CommitmentsCollected, ..self },
                Ok(()),
            )
        } else {
            (MockView { committed, ..self }, Ok(()))
        }
    }

    /// The session under a handle after a share, and what the member is told.
    /// Shares are taken from the end of the first round to that of the second.
    pub open spec fn share(self, id: Seq<char>, signer: Seq<char>, material: Seq<u8>) -> (
        MockView,
        Result<(), CeremonyErrorView>,
    ) {
        let early = ProofView {
            offender: signer,
            offense: "share without a round-1 commitment"@,
            evidence: material,
        };
        let again = ProofView {
            offender: signer,
            offense: "double share in round 2"@,
            evidence: material,
        };
        let shared = self.shared.insert(signer);
        if self.state != SessionState::CommitmentsCollected {
            (self, Err(self.wrong_round(id, "submit a round-2 share"@)))
        } else if !self.committed.contains(signer) {
            (self.aborted(early), Err(CeremonyErrorView::Misbehavior(early)))
        } else if self.shared.contains(signer) {
            (self.aborted(again), Err(CeremonyErrorView::Misbehavior(again)))
        } else if shared.len() >= self.init.quorum.threshold {
            (MockView { shared, state: SessionState::SharesCollected, ..self }, Ok(()))
        } else {
            (MockView { shared, ..self }, Ok(()))
        }
    }
}

/// How far along the rounds a state is.
pub open spec fn round_of(state: SessionState) -> nat {
    match state {
        SessionState::Pending => 0,
        SessionState::CommitmentsCollected => 1,
        SessionState::SharesCollected => 2,
        _ => 3,
    }
}

/// Whether the rounds of a session are strict: the first stands open while
/// fewer members committed than the threshold asks for, the second while fewer
/// shared, and only members that committed share.
pub open spec fn strict(s: MockView) -> bool {
    &&& s.committed.finite() && s.shared.finite() && s.shared.subset_of(s.committed)
    &&& match s.state {
        SessionState::Pending => s.committed.len() < s.init.quorum.threshold && s.shared.len() == 0,
        SessionState::CommitmentsCollected => s.committed.len() == s.init.quorum.threshold
            && s.shared.len() < s.init.quorum.threshold,
        _ => s.committed.len() == s.init.quorum.threshold && s.shared.len()
            == s.init.quorum.threshold,
    }
}

/// A session of a valid quorum starts with strict rounds.
pub proof fn sessions_start_strict(init: InitView)
    requires
        init.quorum.fault() is None,
    ensures
        strict(
            (MockView {
                init,
                state: SessionState::Pending,
                committed: Set::empty(),
                shared: Set::empty(),
                abort: None,
            }),
        ),
{
}

/// The rounds of a session stay strict whatever members send and when it is
/// completed, and no message moves a session back.
pub proof fn sessions_move_forward(s: MockView, id: Seq<char>, signer: Seq<char>, body: Seq<u8>)
    requires
        strict(s),
    ensures
        strict(s.commit(id, signer, body).0),
        strict(s.share(id, signer, body).0),
        s.shared.len() >= s.init.quorum.threshold ==> strict(
            (MockView { state: SessionState::Completed, ..s }),
        ),
        round_of(s.commit(id, signer, body).0.state) >= round_of(s.state),
        round_of(s.share(id, signer, body).0.state) >= round_of(s.state),
{
}

/// Whatever a member is told to have done wrong is the proof that the session
/// keeps.
pub proof fn misbehaviour_is_kept(s: MockView, id: Seq<char>, signer: Seq<char>, body: Seq<u8>)
    ensures
        s.commit(id, signer, body).1 matches Err(CeremonyErrorView::Misbehavior(p)) ==> s.commit(
            id,
            signer,
            body,
        ).0.abort == Some(p),
        s.share(id, signer, body).1 matches Err(CeremonyErrorView::Misbehavior(p)) ==> s.share(
            id,
            signer,
            body,
        ).0.abort == Some(p),
{
}

/// The coordinator.
#[derive(Debug, PartialEq, Eq)]
pub struct MockCeremony {
    sessions: TextMap<MockSession>,
    counter: u64,
    clock: Option<Timestamp>,
}

/// The seed of a quorum's key.
pub open spec fn mock_seed(quorum: Seq<char>) -> Seq<u8> {
    utf8("confium-mock-ceremony:"@ + quorum)
}

impl Default for MockCeremony {
    fn default() -> (r: MockCeremony)
        ensures
            forall|k: Seq<char>| #[trigger] r.session(k) is None,
            r.spec_counter() == 0,
            r.spec_clock() is None,
    {
        MockCeremony::new(None)
    }
}

impl MockCeremony {
    /// The session under a handle.
    pub closed spec fn session(self, id: Seq<char>) -> Option<MockView> {
        match self.sessions.at(id) {
            Some(s) => Some(s@),
            None => None,
        }
    }

    /// How many sessions were asked for.
    pub closed spec fn spec_counter(self) -> u64 {
        self.counter
    }

    /// The clock.
    pub closed spec fn spec_clock(self) -> Option<Timestamp> {
        self.clock
    }

    /// Whether all that changes is the session under a handle.
    pub open spec fn changes_only(self, after: MockCeremony, id: Seq<char>, s: MockView) -> bool {
        &&& after.spec_counter() == self.spec_counter()
        &&& after.spec_clock() == self.spec_clock()
        &&& forall|k: Seq<char>| #[trigger]
            after.session(k) == (if k == id {
                Some(s)
            } else {
                self.session(k)
            })
    }

    /// Whether nothing changes.
    pub open spec fn unchanged(self, after: MockCeremony) -> bool {
        &&& after.spec_counter() == self.spec_counter()
        &&& after.spec_clock() == self.spec_clock()
        &&& forall|k: Seq<char>| #[trigger] after.session(k) == self.session(k)
    }

    /// Why a session takes no messages, if it takes none.
    pub open spec fn dead(self, id: Seq<char>) -> Option<CeremonyErrorView> {
        match self.session(id) {
            None => Some(CeremonyErrorView::UnknownSession(id)),
            Some(s) => if past_expiry(self.spec_clock(), s.init.expires_at, s.state) {
                Some(CeremonyErrorView::Expired)
            } else {
                None
            },
        }
    }

    /// A coordinator without sessions, with a clock if expiry is to be
    /// checked.
    pub fn new(clock: Option<Timestamp>) -> (r: MockCeremony)
        ensures
            forall|k: Seq<char>| #[trigger] r.session(k) is None,
            r.spec_counter() == 0,
            r.spec_clock() == clock,
    {
        MockCeremony { sessions: TextMap::new(), counter: 0, clock }
    }

    /// Sets the clock.
    pub fn set_clock(&mut self, now: Timestamp)
        ensures
            final(self).spec_clock() == Some(now),
            final(self).spec_counter() == old(self).spec_counter(),
            forall|k: Seq<char>| #[trigger] final(self).session(k) == old(self).session(k),
    {
        self.clock = Some(now);
    }

    /// The key of a quorum.
    pub fn group_key(quorum: &NodeId) -> (r: Result<KeyPair, SignatifError>)
        ensures
            r matches Ok(k) && k.spec_suite() == Suite::Ed25519 && k.spec_secret()
                == seeded_secret(mock_seed(quorum@)) && Some(k.spec_public()) == public_of(
                Suite::Ed25519,
                seeded_secret(mock_seed(quorum@)),
            ),
    {
        let seed = cat2("confium-mock-ceremony:", quorum.as_str());
        KeyPair::seeded(Suite::Ed25519, seed.as_str().as_bytes())
    }

    fn live(&self, session: &SessionId) -> (r: Result<(), CeremonyError>)
        ensures
            match self.dead(session@) {
                None => r is Ok && self.session(session@) is Some,
                Some(f) => r matches Err(e) && e@ == f,
            },
    {
        match self.sessions.get(session.as_str()) {
            None => Err(CeremonyError::UnknownSession(session.to_string())),
            Some(s) => if expired(self.clock, s.init.expires_at, s.state) {
                Err(CeremonyError::Expired)
            } else {
                Ok(())
            },
        }
    }
}

fn lists(members: &Vec<NodeId>, node: &NodeId) -> (r: bool)
    ensures
        r == crate::confium::node_texts(members@).contains(node@),
{
    let ghost all = crate::confium::node_texts(members@);
    let mut i: usize = 0;
    while i < members.len()
        invariant
            i <= members.len(),
            all == crate::confium::node_texts(members@),
            forall|k: int| 0 <= k < i ==> #[trigger] all[k] != node@,
        decreases members.len() - i,
    {
        assert(all[i as int] == members@[i as int]@);
        if members[i].same(node) {
            return true;
        }
        i += 1;
    }
    false
}

impl CeremonyCoordinator for MockCeremony {
    type Error = CeremonyError;

    fn create_session(&mut self, init: SessionInit) -> (r: Result<SessionId, CeremonyError>)
        ensures
            ({
                let n = old(self).spec_counter().wrapping_add(1);
                let text = "mock-"@ + init@.quorum.quorum_id + "-"@ + decimal(n as nat);
                match init@.quorum.fault() {
                    Some(f) => r matches Err(e) && e@ == framework(
                        "quorum validation failed: "@,
                        f,
                    ) && old(self).unchanged(*final(self)),
                    None => final(self).spec_counter() == n && final(self).spec_clock() == old(
                        self,
                    ).spec_clock() && (if is_session_id(text) {
                        r matches Ok(id) && id@ == trimmed(text) && forall|k: Seq<char>| #[trigger]
                            final(self).session(k) == (if k == trimmed(text) {
                                Some(
                                    MockView {
                                        init: init@,
                                        state: SessionState::Pending,
                                        committed: Set::empty(),
                                        shared: Set::empty(),
                                        abort: None,
                                    },
                                )
                            } else {
                                old(self).session(k)
                            })
                    } else {
                        r matches Err(e) && e@ == framework(""@, session_id_error(text))
                            && forall|k: Seq<char>| #[trigger]
                            final(self).session(k) == old(self).session(k)
                    }),
                }
            }),
    {
        if let Err(e) = init.quorum.validate() {
            return Err(framework_error("quorum validation failed: ", &e));
        }
        self.counter = self.counter.wrapping_add(1);
        let n = number(self.counter);
        let text = cat4("mock-", init.quorum.quorum_id.as_str(), "-", n.as_str());
        match SessionId::new(text.as_str()) {
            Err(e) => Err(framework_error("", &e)),
            Ok(id) => {
                let session = MockSession {
                    init,
                    state: SessionState::Pending,
                    committed: StringSet::new(),
                    shared: StringSet::new(),
                    abort: None,
                };
                self.sessions.insert(id.as_str(), session);
                Ok(id)
            },
        }
    }

    fn submit_commitment(&mut self, session: &SessionId, commitment: Commitment) -> (r: Result<
        (),
        CeremonyError,
    >)
        ensures
            match old(self).dead(session@) {
                Some(f) => r matches Err(e) && e@ == f && old(self).unchanged(*final(self)),
                None => ({
                    let step = old(self).session(session@)->0.commit(
                        session@,
                        commitment.signer@,
                        commitment.transcript@,
                    );
                    &&& old(self).changes_only(*final(self), session@, step.0)
                    &&& match step.1 {
                        Ok(_) => r is Ok,
                        Err(f) => r matches Err(e) && e@ == f,
                    }
                }),
            },
    {
        if let Err(e) = self.live(session) {
            return Err(e);
        }
        let mut s = match self.sessions.remove(session.as_str()) {
            Some(s) => s,
            None => {
                return Err(CeremonyError::UnknownSession(session.to_string()));
            },
        };
        let evidence = commitment.transcript.as_slice();
        let r = if s.state != SessionState::Pending {
            Err(
                CeremonyError::WrongRound {
                    session: session.to_string(),
                    attempted: "submit a round-1 commitment",
                    state: s.state,
                },
            )
        } else if !lists(&s.init.quorum.members, &commitment.signer) {
            let p = MisbehaviorProof::of(
                &commitment.signer,
                "commitment from non-member",
                evidence,
            );
            s.abort = Some(p.clone());
            Err(CeremonyError::Misbehavior(Box::new(p)))
        } else if s.committed.contains(commitment.signer.as_str()) {
            let p = MisbehaviorProof::of(
                &commitment.signer,
                "double commitment in round 1",
                evidence,
            );
            s.abort = Some(p.clone());
            Err(CeremonyError::Misbehavior(Box::new(p)))
        } else {
            s.committed.insert(commitment.signer.as_str());
            if s.committed.len() >= s.init.quorum.threshold {
                s.state = SessionState::CommitmentsCollected;
            }
            Ok(())
        };
        self.sessions.insert(session.as_str(), s);
        r
    }

    fn submit_share(&mut self, session: &SessionId, share: Share) -> (r: Result<(), CeremonyError>)
        ensures
            match old(self).dead(session@) {
                Some(f) => r matches Err(e) && e@ == f && old(self).unchanged(*final(self)),
                None => ({
                    let step = old(self).session(session@)->0.share(
                        session@,
                        share.signer@,
                        share.material@,
                    );
                    &&& old(self).changes_only(*final(self), session@, step.0)
                    &&& match step.1 {
                        Ok(_) => r is Ok,
                        Err(f) => r matches Err(e) && e@ == f,
                    }
                }),
            },
    {
        if let Err(e) = self.live(session) {
            return Err(e);
        }
        let mut s = match self.sessions.remove(session.as_str()) {
            Some(s) => s,
            None => {
                return Err(CeremonyError::UnknownSession(session.to_string()));
            },
        };
        let evidence = share.material.as_slice();
        let r = if s.state != SessionState::CommitmentsCollected {
            Err(
                CeremonyError::WrongRound {
                    session: session.to_string(),
                    attempted: "submit a round-2 share",
                    state: s.state,
                },
            )
        } else if !s.committed.contains(share.signer.as_str()) {
            let p = MisbehaviorProof::of(
                &share.signer,
                "share without a round-1 commitment",
                evidence,
            );
            s.abort = Some(p.clone());
            Err(CeremonyError::Misbehavior(Box::new(p)))
        } else if s.shared.contains(share.signer.as_str()) {
            let p = MisbehaviorProof::of(&share.signer, "double share in round 2", evidence);
            s.abort = Some(p.clone());
            Err(CeremonyError::Misbehavior(Box::new(p)))
        } else {
            s.shared.insert(share.signer.as_str());
            if s.shared.len() >= s.init.quorum.threshold {
                s.state = SessionState::SharesCollected;
            }
            Ok(())
        };
        self.sessions.insert(session.as_str(), s);
        r
    }

    fn aggregate(&mut self, session: &SessionId) -> (r: Result<AggregatedSignature, CeremonyError>)
        ensures
            match old(self).dead(session@) {
                Some(f) => r matches Err(e) && e@ == f && old(self).unchanged(*final(self)),
                None => ({
                    let s = old(self).session(session@)->0;
                    let secret = seeded_secret(mock_seed(s.init.quorum.quorum_id));
                    if s.shared.len() < s.init.quorum.threshold {
                        r matches Err(e) && e@ == (CeremonyErrorView::ThresholdNotMet {
                            have: s.shared.len(),
                            need: s.init.quorum.threshold as nat,
                        }) && old(self).unchanged(*final(self))
                    } else {
                        r matches Ok(a) && a.suite == Suite::Ed25519 && Some(a.group_key@)
                            == public_of(Suite::Ed25519, secret) && Some(a.value@)
                            == signature_of(
                            Suite::Ed25519,
                            secret,
                            framed(SigningDomain::Quorum, s.init.payload),
                        ) && a.check(s.init.payload) is Ok && old(self).changes_only(
                            *final(self),
                            session@,
                            (MockView { state: SessionState::Completed, ..s }),
                        )
                    }
                }),
            },
    {
        if let Err(e) = self.live(session) {
            return Err(e);
        }
        let (need, have, group, bytes) = match self.sessions.get(session.as_str()) {
            Some(s) => {
                let group = match MockCeremony::group_key(&s.init.quorum.quorum_id) {
                    Ok(k) => k,
                    Err(e) => {
                        return Err(framework_error("", &e));
                    },
                };
                let bytes = domain_framed(
                    SigningDomain::Quorum,
                    s.init.statement.payload.as_slice(),
                );
                (s.init.quorum.threshold, s.shared.len(), group, bytes)
            },
            None => {
                return Err(CeremonyError::UnknownSession(session.to_string()));
            },
        };
        if have < need {
            return Err(CeremonyError::ThresholdNotMet { have, need });
        }
        group.reveal_parts();
        let value = match group.sign_raw(bytes.as_slice()) {
            Ok(v) => v,
            Err(e) => {
                return Err(framework_error("", &e));
            },
        };
        let mut s = match self.sessions.remove(session.as_str()) {
            Some(s) => s,
            None => {
                return Err(CeremonyError::UnknownSession(session.to_string()));
            },
        };
        s.state = SessionState::Completed;
        self.sessions.insert(session.as_str(), s);
        Ok(
            AggregatedSignature { suite: group.suite(), value, group_key: *group.public() },
        )
    }

    fn session_state(&self, session: &SessionId) -> (r: Option<SessionState>)
        ensures
            r == (match self.session(session@) {
                Some(s) => Some(s.state),
                None => None,
            }),
    {
        match self.sessions.get(session.as_str()) {
            Some(s) => Some(s.state),
            None => None,
        }
    }

    fn abort_proof(&self, session: &SessionId) -> (r: Option<&MisbehaviorProof>)
        ensures
            match self.session(session@) {
                Some(s) => r is Some == s.abort is Some && (r matches Some(p) ==> Some(p@)
                    == s.abort),
                None => r is None,
            },
    {
        match self.sessions.get(session.as_str()) {
            Some(s) => match &s.abort {
                Some(p) => Some(p),
                None => None,
            },
            None => None,
        }
    }
}

} // verus!
