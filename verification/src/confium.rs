//! Threshold ceremonies as sessions: the interface of a coordinator, and two
//! coordinators.
//!
//! A session moves through strict rounds: it waits for commitments, then for
//! shares, then it can be aggregated. A message that breaks the rules names
//! its sender. [`mock`] drives the interface without threshold cryptography;
//! [`bridge`] drives it with [`crate::threshold`].

use vstd::prelude::*;

use crate::bytes::copied;
use crate::graph::NodeId;
use crate::keyring::{key_id_of, raw_verdict, KeyId, KeyPair, PublicKey};
use crate::sets::StringSet;
use crate::sign::{domain_framed, framed, SignatureSlot, SigningDomain, SlotView, Suite};
use crate::text::{
    all_graphic, cat2, cat3, cat4, cat5, count, decimal, graphic, string_of, trim, trimmed,
};
use crate::time::Timestamp;
use crate::{ErrorView, SignatifError};

pub mod bridge;
pub mod mock;


verus! {

/// The handle of a session.
#[derive(Debug, PartialEq, Eq, Hash, PartialOrd, Ord)]
pub struct SessionId(String);

impl View for SessionId {
    type V = Seq<char>;

    closed spec fn view(&self) -> Seq<char> {
        self.0@
    }
}

impl Clone for SessionId {
    fn clone(&self) -> (r: SessionId)
        ensures
            r == *self,
    {
        SessionId(self.0.clone())
    }
}

/// Whether a text is a session handle, once white space at its ends is
/// dropped.
pub open spec fn is_session_id(raw: Seq<char>) -> bool {
    0 < trimmed(raw).len() <= 64 && all_graphic(trimmed(raw))
}

/// The error of a text that is no session handle.
pub open spec fn session_id_error(raw: Seq<char>) -> ErrorView {
    ErrorView::Validation("bad session id `"@ + raw + "`"@)
}

impl SessionId {
    /// Reads a session handle.
    pub fn new(raw: &str) -> (r: Result<SessionId, SignatifError>)
        ensures
            r is Ok == is_session_id(raw@),
            r matches Ok(id) ==> id@ == trimmed(raw@),
            r matches Err(e) ==> e@ == session_id_error(raw@),
    {
        let t = trim(raw);
        if t.len() == 0 || t.len() > 64 || !graphic(t.as_slice()) {
            return Err(SignatifError::Validation(cat3("bad session id `", raw, "`")));
        }
        Ok(SessionId(string_of(t.as_slice())))
    }

    /// The text of the handle.
    pub fn as_str(&self) -> (r: &str)
        ensures
            r@ == self@,
    {
        self.0.as_str()
    }

    /// The text of the handle.
    pub fn to_string(&self) -> (r: String)
        ensures
            r@ == self@,
    {
        self.0.clone()
    }
}

/// The ids of a list of nodes.
pub open spec fn node_texts(s: Seq<NodeId>) -> Seq<Seq<char>> {
    s.map_values(|n: NodeId| n@)
}

/// A quorum: T of its members.
#[derive(Debug, Clone, PartialEq, Eq)]
pub struct QuorumSpec {
    /// The node of the quorum.
    pub quorum_id: NodeId,
    /// How many members must act.
    pub threshold: usize,
    /// The members.
    pub members: Vec<NodeId>,
}

/// A quorum as a mathematical value.
#[verifier::ext_equal]
pub struct QuorumSpecView {
    /// See [`QuorumSpec::quorum_id`].
    pub quorum_id: Seq<char>,
    /// See [`QuorumSpec::threshold`].
    pub threshold: usize,
    /// See [`QuorumSpec::members`].
    pub members: Seq<Seq<char>>,
}

impl View for QuorumSpec {
    type V = QuorumSpecView;

    open spec fn view(&self) -> QuorumSpecView {
        QuorumSpecView {
            quorum_id: self.quorum_id@,
            threshold: self.threshold,
            members: node_texts(self.members@),
        }
    }
}

impl QuorumSpecView {
    /// What is wrong with the quorum, if anything.
    pub open spec fn fault(self) -> Option<ErrorView> {
        if self.threshold == 0 || self.threshold > self.members.len() {
            Some(
                ErrorView::Validation(
                    "quorum "@ + decimal(self.threshold as nat) + " of "@ + decimal(
                        self.members.len(),
                    ) + " members is degenerate"@,
                ),
            )
        } else if self.members.to_set().len() != self.members.len() {
            Some(ErrorView::Validation("duplicate quorum member"@))
        } else {
            None
        }
    }
}

impl QuorumSpec {
    /// Checks that the threshold fits the members and that no member is listed
    /// twice.
    pub fn validate(&self) -> (r: Result<(), SignatifError>)
        ensures
            match self@.fault() {
                None => r is Ok,
                Some(f) => r matches Err(e) && e@ == f,
            },
    {
        let ghost all = node_texts(self.members@);
        assert(all.len() == self.members@.len());
        if self.threshold == 0 || self.threshold > self.members.len() {
            let t = count(self.threshold);
            let n = count(self.members.len());
            return Err(
                SignatifError::Validation(
                    cat5("quorum ", t.as_str(), " of ", n.as_str(), " members is degenerate"),
                ),
            );
        }
        let mut seen = StringSet::new();
        let mut i: usize = 0;
        assert(all.take(0).to_set() =~= Set::<Seq<char>>::empty());
        while i < self.members.len()
            invariant
                i <= self.members.len(),
                all == node_texts(self.members@),
                seen.members() == all.take(i as int).to_set(),
            decreases self.members.len() - i,
        {
            assert(all.take(i + 1) =~= all.take(i as int).push(all[i as int]));
            proof {
                crate::sets::lemma_push_to_set(all.take(i as int), all[i as int]);
            }
            seen.insert(self.members[i].as_str());
            i += 1;
        }
        assert(all.take(i as int) =~= all);
        if seen.len() != self.members.len() {
            return Err(SignatifError::invalid("duplicate quorum member"));
        }
        Ok(())
    }
}

/// What a ceremony computes.
#[derive(Debug, Clone, Copy, PartialEq, Eq, Structural)]
pub enum CeremonyKind {
    /// The first group key.
    Dkg,
    /// A signature of a statement.
    Sign,
    /// Shares for other members under the same group key.
    Reshare,
    /// New shares for the same members.
    Refresh,
}

impl CeremonyKind {
    /// The name of the kind.
    pub open spec fn spec_name(self) -> Seq<char> {
        match self {
            CeremonyKind::Dkg => "Dkg"@,
            CeremonyKind::Sign => "Sign"@,
            CeremonyKind::Reshare => "Reshare"@,
            CeremonyKind::Refresh => "Refresh"@,
        }
    }

    /// The name of the kind.
    pub fn name(self) -> (r: &'static str)
        ensures
            r@ == self.spec_name(),
    {
        match self {
            CeremonyKind::Dkg => "Dkg",
            CeremonyKind::Sign => "Sign",
            CeremonyKind::Reshare => "Reshare",
            CeremonyKind::Refresh => "Refresh",
        }
    }
}

/// What a quorum is asked to act on.
#[derive(Debug, Clone, PartialEq, Eq)]
pub struct CeremonyStatement {
    /// What it is.
    pub label: String,
    /// Its bytes.
    pub payload: Vec<u8>,
}

/// A request for a ceremony.
#[derive(Debug, Clone, PartialEq, Eq)]
pub struct SessionInit {
    /// What is to be computed.
    pub kind: CeremonyKind,
    /// The statement.
    pub statement: CeremonyStatement,
    /// The quorum.
    pub quorum: QuorumSpec,
    /// When the session expires if it is not complete.
    pub expires_at: Option<Timestamp>,
}

/// A request as a mathematical value.
#[verifier::ext_equal]
pub struct InitView {
    /// See [`SessionInit::kind`].
    pub kind: CeremonyKind,
    /// See [`CeremonyStatement::label`].
    pub label: Seq<char>,
    /// See [`CeremonyStatement::payload`].
    pub payload: Seq<u8>,
    /// See [`SessionInit::quorum`].
    pub quorum: QuorumSpecView,
    /// See [`SessionInit::expires_at`].
    pub expires_at: Option<Timestamp>,
}

impl View for SessionInit {
    type V = InitView;

    open spec fn view(&self) -> InitView {
        InitView {
            kind: self.kind,
            label: self.statement.label@,
            payload: self.statement.payload@,
            quorum: self.quorum@,
            expires_at: self.expires_at,
        }
    }
}

/// A message of the first round.
#[derive(Debug, Clone, PartialEq, Eq)]
pub struct Commitment {
    /// The member.
    pub signer: NodeId,
    /// What the member commits to.
    pub transcript: Vec<u8>,
}

/// A message of the second round.
#[derive(Debug, Clone, PartialEq, Eq)]
pub struct Share {
    /// The member.
    pub signer: NodeId,
    /// What the member contributes.
    pub material: Vec<u8>,
}

/// What a ceremony puts out.
#[derive(Debug, Clone, PartialEq, Eq)]
pub struct AggregatedSignature {
    /// The suite of the signature.
    pub suite: Suite,
    /// The signature.
    pub value: Vec<u8>,
    /// The group key.
    pub group_key: PublicKey,
}

impl AggregatedSignature {
    /// What checking the signature of a statement gives.
    pub open spec fn check(self, payload: Seq<u8>) -> Result<(), ErrorView> {
        raw_verdict(self.group_key@, framed(SigningDomain::Quorum, payload), self.value@)
    }

    /// Checks the signature of a statement under the group key.
    pub fn verify(&self, statement: &CeremonyStatement) -> (r: Result<(), SignatifError>)
        ensures
            crate::outcome(r) == self.check(statement.payload@),
    {
        let bytes = domain_framed(SigningDomain::Quorum, statement.payload.as_slice());
        KeyPair::verify_raw(&self.group_key, bytes.as_slice(), self.value.as_slice())
    }

    /// The signature as a slot.
    pub fn to_slot(&self) -> (r: SignatureSlot)
        ensures
            r@ == (SlotView {
                suite: self.suite,
                key_id: key_id_of(self.group_key@),
                signature: Some(self.value@),
            }),
    {
        SignatureSlot {
            suite: self.suite,
            key_id: KeyId::of(&self.group_key),
            signature: Some(copied(self.value.as_slice())),
        }
    }
}

/// How far a session is.
#[derive(Debug, Clone, Copy, PartialEq, Eq, Structural)]
pub enum SessionState {
    /// It waits for commitments.
    Pending,
    /// It has enough commitments and waits for shares.
    CommitmentsCollected,
    /// It has enough shares.
    SharesCollected,
    /// It is done.
    Completed,
    /// It expired.
    Expired,
}

impl SessionState {
    /// The name of the state.
    pub open spec fn spec_name(self) -> Seq<char> {
        match self {
            SessionState::Pending => "Pending"@,
            SessionState::CommitmentsCollected => "CommitmentsCollected"@,
            SessionState::SharesCollected => "SharesCollected"@,
            SessionState::Completed => "Completed"@,
            SessionState::Expired => "Expired"@,
        }
    }

    /// The name of the state.
    pub fn name(self) -> (r: &'static str)
        ensures
            r@ == self.spec_name(),
    {
        match self {
            SessionState::Pending => "Pending",
            SessionState::CommitmentsCollected => "CommitmentsCollected",
            SessionState::SharesCollected => "SharesCollected",
            SessionState::Completed => "Completed",
            SessionState::Expired => "Expired",
        }
    }
}

/// The proof that a member broke the rules.
#[derive(Debug, PartialEq, Eq)]
pub struct MisbehaviorProof {
    /// The member.
    pub offender: NodeId,
    /// What they did.
    pub offense: String,
    /// The message.
    pub evidence: Vec<u8>,
}

/// A proof of misbehaviour as a mathematical value.
#[verifier::ext_equal]
pub struct ProofView {
    /// See [`MisbehaviorProof::offender`].
    pub offender: Seq<char>,
    /// See [`MisbehaviorProof::offense`].
    pub offense: Seq<char>,
    /// See [`MisbehaviorProof::evidence`].
    pub evidence: Seq<u8>,
}

impl View for MisbehaviorProof {
    type V = ProofView;

    open spec fn view(&self) -> ProofView {
        ProofView {
            offender: self.offender@,
            offense: self.offense@,
            evidence: self.evidence@,
        }
    }
}

impl Clone for MisbehaviorProof {
    fn clone(&self) -> (r: MisbehaviorProof)
        ensures
            r@ == self@,
    {
        MisbehaviorProof {
            offender: self.offender.clone(),
            offense: self.offense.clone(),
            evidence: copied(self.evidence.as_slice()),
        }
    }
}

impl MisbehaviorProof {
    /// The proof that a member did something.
    pub fn of(offender: &NodeId, offense: &str, evidence: &[u8]) -> (r: MisbehaviorProof)
        ensures
            r@ == (ProofView { offender: offender@, offense: offense@, evidence: evidence@ }),
    {
        MisbehaviorProof {
            offender: offender.clone(),
            offense: offense.to_owned(),
            evidence: copied(evidence),
        }
    }
}

/// Why a coordinator refuses.
#[derive(Debug, Clone, PartialEq, Eq)]
pub enum CeremonyError {
    /// There is no such session.
    UnknownSession(String),
    /// The message belongs to another round.
    WrongRound {
        /// The session.
        session: String,
        /// What was attempted.
        attempted: &'static str,
        /// How far the session is.
        state: SessionState,
    },
    /// A member broke the rules.
    Misbehavior(Box<MisbehaviorProof>),
    /// There are not enough shares.
    ThresholdNotMet {
        /// How many there are.
        have: usize,
        /// How many are needed.
        need: usize,
    },
    /// The session expired.
    Expired,
    /// Something underneath failed.
    Framework(String),
}

/// A coordinator's error as a mathematical value.
#[verifier::ext_equal]
pub enum CeremonyErrorView {
    /// See [`CeremonyError::UnknownSession`].
    UnknownSession(Seq<char>),
    /// See [`CeremonyError::WrongRound`].
    WrongRound { session: Seq<char>, attempted: Seq<char>, state: SessionState },
    /// See [`CeremonyError::Misbehavior`].
    Misbehavior(ProofView),
    /// See [`CeremonyError::ThresholdNotMet`].
    ThresholdNotMet { have: nat, need: nat },
    /// See [`CeremonyError::Expired`].
    Expired,
    /// See [`CeremonyError::Framework`].
    Framework(Seq<char>),
}

impl View for CeremonyError {
    type V = CeremonyErrorView;

    open spec fn view(&self) -> CeremonyErrorView {
        match self {
            CeremonyError::UnknownSession(s) => CeremonyErrorView::UnknownSession(s@),
            CeremonyError::WrongRound { session, attempted, state } =>
            CeremonyErrorView::WrongRound {
                session: session@,
                attempted: attempted@,
                state: *state,
            },
            CeremonyError::Misbehavior(p) => CeremonyErrorView::Misbehavior((**p)@),
            CeremonyError::ThresholdNotMet { have, need } => CeremonyErrorView::ThresholdNotMet {
                have: *have as nat,
                need: *need as nat,
            },
            CeremonyError::Expired => CeremonyErrorView::Expired,
            CeremonyError::Framework(m) => CeremonyErrorView::Framework(m@),
        }
    }
}

impl CeremonyErrorView {
    /// The error in words.
    pub open spec fn text(self) -> Seq<char> {
        match self {
            CeremonyErrorView::UnknownSession(s) => "unknown ceremony session `"@ + s + "`"@,
            CeremonyErrorView::WrongRound { session, attempted, state } => "session `"@ + session
                + "` is in "@ + state.spec_name() + "; cannot "@ + attempted,
            CeremonyErrorView::Misbehavior(p) => "identifiable abort: "@ + p.offender
                + " misbehaved ("@ + p.offense + ")"@,
            CeremonyErrorView::ThresholdNotMet { have, need } => "quorum not met: have "@
                + decimal(have) + " of "@ + decimal(need),
            CeremonyErrorView::Expired => "ceremony session expired"@,
            CeremonyErrorView::Framework(m) => "ceremony framework error: "@ + m,
        }
    }
}

impl CeremonyError {
    /// The error in words.
    pub fn to_string(&self) -> (r: String)
        ensures
            r@ == self@.text(),
    {
        match self {
            CeremonyError::UnknownSession(s) => cat3(
                "unknown ceremony session `",
                s.as_str(),
                "`",
            ),
            CeremonyError::WrongRound { session, attempted, state } => crate::text::cat6(
                "session `",
                session.as_str(),
                "` is in ",
                state.name(),
                "; cannot ",
                attempted,
            ),
            CeremonyError::Misbehavior(p) => cat5(
                "identifiable abort: ",
                p.offender.as_str(),
                " misbehaved (",
                p.offense.as_str(),
                ")",
            ),
            CeremonyError::ThresholdNotMet { have, need } => {
                let h = count(*have);
                let n = count(*need);
                cat4("quorum not met: have ", h.as_str(), " of ", n.as_str())
            },
            CeremonyError::Expired => "ceremony session expired".to_owned(),
            CeremonyError::Framework(m) => cat2("ceremony framework error: ", m.as_str()),
        }
    }
}

/// The failure of something underneath.
pub open spec fn framework(prefix: Seq<char>, e: ErrorView) -> CeremonyErrorView {
    CeremonyErrorView::Framework(prefix + e.text())
}

pub(crate) fn framework_error(prefix: &str, e: &SignatifError) -> (r: CeremonyError)
    ensures
        r@ == framework(prefix@, e@),
{
    let text = e.to_string();
    CeremonyError::Framework(cat2(prefix, text.as_str()))
}

/// The interface of a coordinator.
pub trait CeremonyCoordinator {
    /// Why the coordinator refuses.
    type Error;

    /// Opens a session.
    fn create_session(&mut self, init: SessionInit) -> Result<SessionId, Self::Error>;

    /// Takes a message of the first round.
    fn submit_commitment(&mut self, session: &SessionId, commitment: Commitment) -> Result<
        (),
        Self::Error,
    >;

    /// Takes a message of the second round.
    fn submit_share(&mut self, session: &SessionId, share: Share) -> Result<(), Self::Error>;

    /// Computes the output.
    fn aggregate(&mut self, session: &SessionId) -> Result<AggregatedSignature, Self::Error>;

    /// How far a session is.
    fn session_state(&self, session: &SessionId) -> Option<SessionState>;

    /// The proof of the last misbehaviour in a session.
    fn abort_proof(&self, session: &SessionId) -> Option<&MisbehaviorProof>;
}

/// Whether a session is past its expiry at a moment: it has one, the clock is
/// set and later, and the session is not complete.
pub open spec fn past_expiry(
    clock: Option<Timestamp>,
    expires_at: Option<Timestamp>,
    state: SessionState,
) -> bool {
    match (clock, expires_at) {
        (Some(now), Some(expiry)) => expiry.lt(now) && state != SessionState::Completed,
        _ => false,
    }
}

pub(crate) fn expired(
    clock: Option<Timestamp>,
    expires_at: Option<Timestamp>,
    state: SessionState,
) -> (r: bool)
    ensures
        r == past_expiry(clock, expires_at, state),
{
    match (clock, expires_at) {
        (Some(now), Some(expiry)) => expiry.before(now) && state != SessionState::Completed,
        _ => false,
    }
}

} // verus!
