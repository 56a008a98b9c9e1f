//! Revocation: the reason decides whether a declaration acts forward or back.
//!
//! Forward-acting reasons (a key compromised after some moment, cessation,
//! supersession, a change of affiliation) leave what was done before standing.
//! Backward-acting reasons (misissuance, fraud, an authority compromised
//! throughout a window) void from the start what is dated inside the window;
//! what is dated outside stands. A backward-acting declaration is an act of
//! authority over authority: the ledger takes it only with the attestation of
//! a quorum.
//!
//! A taint on a passport reaches everything that was made from it.

use vstd::bytes::spec_u32_to_le_bytes;
use vstd::prelude::*;

use crate::bytes::{append, utf8};
use crate::canon::{fields, i64_bytes, CanonicalWriter};
use crate::graph::{KeyDirectory, NodeId};
use crate::keyring::{key_id_of, KeyId, KeyPair};
use crate::lineage::{ancestors_of, is_ancestor, PassportId, ProvenanceGraph};
use crate::maps::TextMap;
use crate::scope::{ConditionView, ScopeCondition};
use crate::sets::{ascending, texts, StringSet};
use crate::sign::{
    canonical_fields, copy_slots, lemma_member_slots_prefix, member_slots, signing_error,
    slice_views, slot_views, SignatureSlot, SigningDomain, SlotView,
};
use crate::signer::{all_issued, issued};
use crate::taint::{no_repeats, KnownTaint, Taint, TaintKind, TaintSet, TaintView};
use crate::text::{cat2, cat5, cat7};
use crate::time::{Interval, Timestamp};
use crate::{ErrorView, SignatifError};

verus! {

/// Why a subject is distrusted.
#[derive(Debug, PartialEq, Eq)]
pub enum RevocationReason {
    /// The key was compromised; it can be trusted before `after`.
    KeyCompromise {
        /// When the compromise happened.
        after: Timestamp,
    },
    /// The authority ceased to operate.
    Cessation,
    /// Another node took over.
    Supersession {
        /// The other node.
        by: NodeId,
    },
    /// The affiliation changed.
    AffiliationChange,
    /// What was issued inside the window was wrong from the start.
    Misissuance,
    /// What was issued inside the window was issued by fraud.
    FraudulentIssuance,
    /// The authority was compromised throughout the window.
    AuthorityCompromised {
        /// When the compromise was found.
        detected_at: Timestamp,
    },
}

/// A reason as a mathematical value.
#[verifier::ext_equal]
pub enum ReasonView {
    /// See [`RevocationReason::KeyCompromise`].
    KeyCompromise { after: Timestamp },
    /// See [`RevocationReason::Cessation`].
    Cessation,
    /// See [`RevocationReason::Supersession`].
    Supersession { by: Seq<char> },
    /// See [`RevocationReason::AffiliationChange`].
    AffiliationChange,
    /// See [`RevocationReason::Misissuance`].
    Misissuance,
    /// See [`RevocationReason::FraudulentIssuance`].
    FraudulentIssuance,
    /// See [`RevocationReason::AuthorityCompromised`].
    AuthorityCompromised { detected_at: Timestamp },
}

impl View for RevocationReason {
    type V = ReasonView;

    open spec fn view(&self) -> ReasonView {
        match self {
            RevocationReason::KeyCompromise { after } => ReasonView::KeyCompromise {
                after: *after,
            },
            RevocationReason::Cessation => ReasonView::Cessation,
            RevocationReason::Supersession { by } => ReasonView::Supersession { by: by@ },
            RevocationReason::AffiliationChange => ReasonView::AffiliationChange,
            RevocationReason::Misissuance => ReasonView::Misissuance,
            RevocationReason::FraudulentIssuance => ReasonView::FraudulentIssuance,
            RevocationReason::AuthorityCompromised { detected_at } =>
            ReasonView::AuthorityCompromised { detected_at: *detected_at },
        }
    }
}

impl ReasonView {
    /// Whether the reason acts back to the start of the window.
    pub open spec fn retroactive(self) -> bool {
        self is Misissuance || self is FraudulentIssuance || self is AuthorityCompromised
    }

    /// The token of the reason.
    pub open spec fn token(self) -> Seq<char> {
        match self {
            ReasonView::KeyCompromise { .. } => "key-compromise"@,
            ReasonView::Cessation => "cessation"@,
            ReasonView::Supersession { .. } => "supersession"@,
            ReasonView::AffiliationChange => "affiliation-change"@,
            ReasonView::Misissuance => "misissuance"@,
            ReasonView::FraudulentIssuance => "fraudulent-issuance"@,
            ReasonView::AuthorityCompromised { .. } => "authority-compromised"@,
        }
    }

    /// The kind of taint that the reason leaves.
    pub open spec fn taint_kind(self) -> TaintKind {
        match self {
            ReasonView::KeyCompromise { .. } => TaintKind::Known(KnownTaint::Compromised),
            ReasonView::Cessation
            | ReasonView::Supersession { .. }
            | ReasonView::AffiliationChange => TaintKind::Known(KnownTaint::Revoked),
            ReasonView::Misissuance | ReasonView::AuthorityCompromised { .. } => TaintKind::Known(
                KnownTaint::Misissued,
            ),
            ReasonView::FraudulentIssuance => TaintKind::Known(KnownTaint::Fraud),
        }
    }
}

/// A reason acts back exactly when the taint that it leaves voids from the
/// start.
pub proof fn retroactive_reasons_leave_voiding_taints(reason: ReasonView)
    ensures
        reason.retroactive() == reason.taint_kind().voids(),
{
}

impl Clone for RevocationReason {
    fn clone(&self) -> (r: RevocationReason)
        ensures
            r@ == self@,
    {
        match self {
            RevocationReason::KeyCompromise { after } => RevocationReason::KeyCompromise {
                after: *after,
            },
            RevocationReason::Cessation => RevocationReason::Cessation,
            RevocationReason::Supersession { by } => RevocationReason::Supersession {
                by: by.clone(),
            },
            RevocationReason::AffiliationChange => RevocationReason::AffiliationChange,
            RevocationReason::Misissuance => RevocationReason::Misissuance,
            RevocationReason::FraudulentIssuance => RevocationReason::FraudulentIssuance,
            RevocationReason::AuthorityCompromised { detected_at } =>
            RevocationReason::AuthorityCompromised { detected_at: *detected_at },
        }
    }
}

impl RevocationReason {
    /// Whether the reason voids from the start of the window.
    pub fn is_retroactive(&self) -> (r: bool)
        ensures
            r == self@.retroactive(),
    {
        match self {
            RevocationReason::Misissuance
            | RevocationReason::FraudulentIssuance
            | RevocationReason::AuthorityCompromised { .. } => true,
            _ => false,
        }
    }

    /// The token of the reason.
    pub fn token(&self) -> (r: &'static str)
        ensures
            r@ == self@.token(),
    {
        match self {
            RevocationReason::KeyCompromise { .. } => "key-compromise",
            RevocationReason::Cessation => "cessation",
            RevocationReason::Supersession { .. } => "supersession",
            RevocationReason::AffiliationChange => "affiliation-change",
            RevocationReason::Misissuance => "misissuance",
            RevocationReason::FraudulentIssuance => "fraudulent-issuance",
            RevocationReason::AuthorityCompromised { .. } => "authority-compromised",
        }
    }

    /// The kind of taint that the reason leaves.
    pub fn taint_kind(&self) -> (r: TaintKind)
        ensures
            r == self@.taint_kind(),
    {
        match self {
            RevocationReason::KeyCompromise { .. } => TaintKind::Known(KnownTaint::Compromised),
            RevocationReason::Cessation
            | RevocationReason::Supersession { .. }
            | RevocationReason::AffiliationChange => TaintKind::Known(KnownTaint::Revoked),
            RevocationReason::Misissuance | RevocationReason::AuthorityCompromised { .. } =>
            TaintKind::Known(KnownTaint::Misissued),
            RevocationReason::FraudulentIssuance => TaintKind::Known(KnownTaint::Fraud),
        }
    }
}

/// What a revocation acts on.
#[derive(Debug, PartialEq, Eq)]
pub enum RevokedSubject {
    /// A signing key.
    Key(KeyId),
    /// An authority with all its keys.
    Node(NodeId),
    /// A passport.
    Passport(PassportId),
}

/// A subject as a mathematical value.
#[verifier::ext_equal]
pub enum SubjectView {
    /// See [`RevokedSubject::Key`].
    Key(Seq<char>),
    /// See [`RevokedSubject::Node`].
    Node(Seq<char>),
    /// See [`RevokedSubject::Passport`].
    Passport(Seq<char>),
}

impl View for RevokedSubject {
    type V = SubjectView;

    open spec fn view(&self) -> SubjectView {
        match self {
            RevokedSubject::Key(k) => SubjectView::Key(k@),
            RevokedSubject::Node(n) => SubjectView::Node(n@),
            RevokedSubject::Passport(p) => SubjectView::Passport(p@),
        }
    }
}

impl SubjectView {
    /// The label of the subject.
    pub open spec fn label(self) -> Seq<char> {
        match self {
            SubjectView::Key(k) => "key:"@ + k,
            SubjectView::Node(n) => "node:"@ + n,
            SubjectView::Passport(p) => "passport:"@ + p,
        }
    }
}

impl Clone for RevokedSubject {
    fn clone(&self) -> (r: RevokedSubject)
        ensures
            r@ == self@,
    {
        match self {
            RevokedSubject::Key(k) => RevokedSubject::Key(k.clone()),
            RevokedSubject::Node(n) => RevokedSubject::Node(n.clone()),
            RevokedSubject::Passport(p) => RevokedSubject::Passport(p.clone()),
        }
    }
}

impl RevokedSubject {
    /// The label of the subject.
    pub fn label(&self) -> (r: String)
        ensures
            r@ == self@.label(),
    {
        match self {
            RevokedSubject::Key(k) => cat2("key:", k.as_str()),
            RevokedSubject::Node(n) => cat2("node:", n.as_str()),
            RevokedSubject::Passport(p) => cat2("passport:", p.as_str()),
        }
    }

    fn is_key(&self, key_id: &KeyId) -> (r: bool)
        ensures
            r == (self@ == SubjectView::Key(key_id@)),
    {
        match self {
            RevokedSubject::Key(k) => k.same(key_id),
            _ => false,
        }
    }

    fn is_passport(&self, passport: &str) -> (r: bool)
        ensures
            r == (self@ == SubjectView::Passport(passport@)),
    {
        match self {
            RevokedSubject::Passport(p) => crate::text::same_text(p.as_str(), passport),
            _ => false,
        }
    }
}

/// The statement of a quorum that authorizes an act of authority over
/// authority: member signatures over a statement.
#[derive(Debug, PartialEq, Eq)]
pub struct QuorumAttestation {
    /// The quorum.
    pub quorum: NodeId,
    /// How many distinct members must sign.
    pub threshold: usize,
    /// The members' signatures.
    pub signatures: Vec<SignatureSlot>,
}

/// An attestation as a mathematical value.
#[verifier::ext_equal]
pub struct QuorumView {
    /// See [`QuorumAttestation::quorum`].
    pub quorum: Seq<char>,
    /// See [`QuorumAttestation::threshold`].
    pub threshold: usize,
    /// See [`QuorumAttestation::signatures`].
    pub signatures: Seq<SlotView>,
}

impl View for QuorumAttestation {
    type V = QuorumView;

    open spec fn view(&self) -> QuorumView {
        QuorumView {
            quorum: self.quorum@,
            threshold: self.threshold,
            signatures: slot_views(self.signatures@),
        }
    }
}

/// The bytes that the members of a quorum sign.
pub open spec fn quorum_bytes(statement: Seq<u8>, quorum: Seq<char>, threshold: usize) -> Seq<u8> {
    fields(seq![utf8(quorum)]) + spec_u32_to_le_bytes(threshold as u32) + statement
}

/// The keys of the slots that verify for a payload.
pub open spec fn verifying_keys(
    slots: Seq<SlotView>,
    payload: Seq<u8>,
    directory: KeyDirectory,
) -> Set<Seq<char>>
    decreases slots.len(),
{
    if slots.len() == 0 {
        Set::empty()
    } else {
        let before = verifying_keys(slots.drop_last(), payload, directory);
        let slot = slots.last();
        match directory.lookup(slot.key_id) {
            Some(key) => if slot.verifies(SigningDomain::Quorum, payload, key) {
                before.insert(slot.key_id)
            } else {
                before
            },
            None => before,
        }
    }
}

/// The keys that verify depend on nothing but the directory's lookups.
pub(crate) proof fn lemma_verifying_keys_agree(
    slots: Seq<SlotView>,
    payload: Seq<u8>,
    a: KeyDirectory,
    b: KeyDirectory,
)
    requires
        forall|id: Seq<char>| #[trigger] a.lookup(id) == b.lookup(id),
    ensures
        verifying_keys(slots, payload, a) == verifying_keys(slots, payload, b),
    decreases slots.len(),
{
    if slots.len() > 0 {
        lemma_verifying_keys_agree(slots.drop_last(), payload, a, b);
        assert(a.lookup(slots.last().key_id) == b.lookup(slots.last().key_id));
    }
}

impl QuorumView {
    /// Whether enough distinct members signed the statement.
    pub open spec fn quorate(self, statement: Seq<u8>, directory: KeyDirectory) -> bool {
        verifying_keys(
            self.signatures,
            quorum_bytes(statement, self.quorum, self.threshold),
            directory,
        ).len() >= self.threshold
    }
}

impl Clone for QuorumAttestation {
    fn clone(&self) -> (r: QuorumAttestation)
        ensures
            r@ == self@,
    {
        QuorumAttestation {
            quorum: self.quorum.clone(),
            threshold: self.threshold,
            signatures: copy_slots(&self.signatures),
        }
    }
}

impl QuorumAttestation {
    /// The bytes that the members sign.
    pub fn canonical_bytes(statement: &[u8], quorum: &NodeId, threshold: usize) -> (r: Vec<u8>)
        ensures
            r@ == quorum_bytes(statement@, quorum@, threshold),
    {
        let id: &[u8] = quorum.as_str().as_bytes();
        let parts: [&[u8]; 1] = [id];
        let mut out = canonical_fields(parts.as_slice());
        assert(slice_views(parts@) =~= seq![utf8(quorum@)]);
        let mut w = CanonicalWriter::new();
        w.write_u32(threshold as u32);
        let count = w.into_bytes();
        assert(count@ =~= spec_u32_to_le_bytes(threshold as u32));
        append(&mut out, count.as_slice());
        append(&mut out, statement);
        out
    }

    /// Signs a statement with the members' keys.
    pub fn mint_sign(
        quorum: &NodeId,
        threshold: usize,
        statement: &[u8],
        member_keys: &[&KeyPair],
    ) -> (r: Result<QuorumAttestation, SignatifError>)
        ensures
            match member_slots(
                member_keys@,
                SigningDomain::Quorum,
                quorum_bytes(statement@, quorum@, threshold),
            ) {
                Some(slots) => r matches Ok(a) && a@ == (QuorumView {
                    quorum: quorum@,
                    threshold,
                    signatures: slots,
                }) && all_issued(
                    member_keys@,
                    SigningDomain::Quorum,
                    quorum_bytes(statement@, quorum@, threshold),
                    slots,
                ),
                None => r matches Err(e) && e@ == signing_error(),
            },
    {
        let payload = QuorumAttestation::canonical_bytes(statement, quorum, threshold);
        let ghost all = member_keys@;
        let mut signatures: Vec<SignatureSlot> = Vec::new();
        let mut i: usize = 0;
        assert(slot_views(signatures@) =~= Seq::<SlotView>::empty());
        assert(all.take(0) =~= Seq::<&KeyPair>::empty());
        while i < member_keys.len()
            invariant
                i <= member_keys.len(),
                all == member_keys@,
                payload@ == quorum_bytes(statement@, quorum@, threshold),
                member_slots(all.take(i as int), SigningDomain::Quorum, payload@) == Some(
                    slot_views(signatures@),
                ),
                all_issued(
                    all.take(i as int),
                    SigningDomain::Quorum,
                    payload@,
                    slot_views(signatures@),
                ),
            decreases member_keys.len() - i,
        {
            assert(all.take(i + 1).drop_last() =~= all.take(i as int));
            let ghost before = slot_views(signatures@);
            match SignatureSlot::sign(member_keys[i], SigningDomain::Quorum, payload.as_slice()) {
                Err(e) => {
                    proof {
                        lemma_member_slots_prefix(all, i + 1, SigningDomain::Quorum, payload@);
                    }
                    return Err(e);
                },
                Ok(slot) => {
                    signatures.push(slot);
                    assert(slot_views(signatures@) =~= before.push(slot@));
                    assert forall|k: int| 0 <= k < i + 1 implies issued(
                        *all.take(i + 1)[k],
                        SigningDomain::Quorum,
                        payload@,
                        #[trigger] slot_views(signatures@)[k],
                    ) by {
                        if k < i {
                            assert(before[k] == slot_views(signatures@)[k]);
                        }
                    }
                },
            }
            i += 1;
        }
        assert(all.take(i as int) =~= all);
        Ok(QuorumAttestation { quorum: quorum.clone(), threshold, signatures })
    }

    /// Whether at least `threshold` distinct member keys signed the statement.
    pub fn is_quorate(&self, statement: &[u8], directory: &KeyDirectory) -> (r: Result<
        bool,
        SignatifError,
    >)
        ensures
            r == Ok::<bool, SignatifError>(self@.quorate(statement@, *directory)),
    {
        let payload = QuorumAttestation::canonical_bytes(statement, &self.quorum, self.threshold);
        let ghost all = self@.signatures;
        let mut verified = StringSet::new();
        let mut i: usize = 0;
        assert(all.take(0) =~= Seq::<SlotView>::empty());
        while i < self.signatures.len()
            invariant
                i <= self.signatures.len(),
                all == self@.signatures,
                verified.members() == verifying_keys(all.take(i as int), payload@, *directory),
            decreases self.signatures.len() - i,
        {
            proof {
                assert(all.take(i + 1).drop_last() =~= all.take(i as int));
                assert(all.take(i + 1).last() == self.signatures@[i as int]@);
            }
            let slot = &self.signatures[i];
            if let Some(public) = directory.resolve(&slot.key_id) {
                if slot.verify(SigningDomain::Quorum, payload.as_slice(), public).is_ok() {
                    verified.insert(slot.key_id.as_str());
                }
            }
            i += 1;
        }
        assert(all.take(i as int) =~= all);
        Ok(verified.len() >= self.threshold)
    }
}

/// A declaration of distrust.
#[derive(Debug, PartialEq, Eq)]
pub struct Revocation {
    /// What is distrusted.
    pub subject: RevokedSubject,
    /// Why.
    pub reason: RevocationReason,
    /// When it was declared; nobody could know it earlier.
    pub declared_at: Timestamp,
    /// The window of distrust.
    pub window: Interval,
    /// Who declares it.
    pub declared_by: NodeId,
    /// The quorum's attestation.
    pub quorum: Option<QuorumAttestation>,
}

/// A declaration as a mathematical value.
#[verifier::ext_equal]
pub struct RevocationView {
    /// See [`Revocation::subject`].
    pub subject: SubjectView,
    /// See [`Revocation::reason`].
    pub reason: ReasonView,
    /// See [`Revocation::declared_at`].
    pub declared_at: Timestamp,
    /// See [`Revocation::window`].
    pub window: Interval,
    /// See [`Revocation::declared_by`].
    pub declared_by: Seq<char>,
    /// See [`Revocation::quorum`].
    pub quorum: Option<QuorumView>,
}

impl View for Revocation {
    type V = RevocationView;

    open spec fn view(&self) -> RevocationView {
        RevocationView {
            subject: self.subject@,
            reason: self.reason@,
            declared_at: self.declared_at,
            window: self.window,
            declared_by: self.declared_by@,
            quorum: match self.quorum {
                Some(q) => Some(q@),
                None => None,
            },
        }
    }
}

/// The declarations of a list as mathematical values.
pub open spec fn revocation_views(s: Seq<Revocation>) -> Seq<RevocationView> {
    s.map_values(|r: Revocation| r@)
}

impl Clone for Revocation {
    fn clone(&self) -> (r: Revocation)
        ensures
            r@ == self@,
    {
        Revocation {
            subject: self.subject.clone(),
            reason: self.reason.clone(),
            declared_at: self.declared_at,
            window: self.window,
            declared_by: self.declared_by.clone(),
            quorum: match &self.quorum {
                Some(q) => Some(q.clone()),
                None => None,
            },
        }
    }
}

impl RevocationView {
    /// The seconds at which the window ends; the greatest number when it has
    /// no end.
    pub open spec fn end_secs(self) -> i64 {
        match self.window.to {
            Some(t) => t.secs,
            None => i64::MAX,
        }
    }

    /// The statement that the quorum attests to.
    pub open spec fn statement(self) -> Seq<u8> {
        fields(
            seq![
                utf8(self.subject.label()),
                utf8(self.reason.token()),
                utf8(self.declared_by),
                i64_bytes(self.window.from.secs),
                i64_bytes(self.end_secs()),
            ],
        )
    }

    /// Whether the declaration was known by a moment; `None` stands for now.
    pub open spec fn known(self, known_by: Option<Timestamp>) -> bool {
        known_by matches Some(cutoff) ==> self.declared_at.le(cutoff)
    }

    /// The declaration in words.
    pub open spec fn summary(self) -> Seq<char> {
        (if self.reason.retroactive() {
            "RETROACTIVE"@
        } else {
            "prospective"@
        }) + " "@ + self.reason.token() + " ["@ + self.window.text() + "] declared by "@
            + self.declared_by + (" at "@ + self.declared_at.text() + " ("@ + self.subject.label()
            + ")"@)
    }
}

fn i64_le(n: i64) -> (r: Vec<u8>)
    ensures
        r@ == i64_bytes(n),
{
    let mut w = CanonicalWriter::new();
    w.write_i64(n);
    let r = w.into_bytes();
    assert(r@ =~= i64_bytes(n));
    r
}

impl Revocation {
    /// The statement that the quorum attests to.
    pub fn statement_bytes(&self) -> (r: Vec<u8>)
        ensures
            r@ == self@.statement(),
    {
        let label = self.subject.label();
        let label_bytes: &[u8] = label.as_str().as_bytes();
        let token: &[u8] = self.reason.token().as_bytes();
        let by: &[u8] = self.declared_by.as_str().as_bytes();
        let from = i64_le(self.window.from.secs);
        let end = match self.window.to {
            Some(t) => t.secs,
            None => 0x7fff_ffff_ffff_ffff,
        };
        let to = i64_le(end);
        let parts: [&[u8]; 5] = [label_bytes, token, by, from.as_slice(), to.as_slice()];
        let r = canonical_fields(parts.as_slice());
        assert(slice_views(parts@) =~= seq![
            utf8(self@.subject.label()),
            utf8(self@.reason.token()),
            utf8(self@.declared_by),
            i64_bytes(self@.window.from.secs),
            i64_bytes(self@.end_secs()),
        ]);
        r
    }

    /// Whether the declaration voids what is dated at a moment: the moment is
    /// in the window.
    pub fn voids(&self, at: Timestamp) -> (r: bool)
        ensures
            r == self@.window.has(at),
    {
        self.window.contains(at)
    }

    /// The declaration in words.
    pub fn summary(&self) -> (r: String)
        ensures
            r@ == self@.summary(),
    {
        let class = if self.reason.is_retroactive() {
            "RETROACTIVE"
        } else {
            "prospective"
        };
        let window = self.window.to_string();
        let at = self.declared_at.to_string();
        let label = self.subject.label();
        let mut out = cat7(
            class,
            " ",
            self.reason.token(),
            " [",
            window.as_str(),
            "] declared by ",
            self.declared_by.as_str(),
        );
        let tail = cat5(" at ", at.as_str(), " (", label.as_str(), ")");
        out.push_str(tail.as_str());
        out
    }

    fn known(&self, known_by: Option<Timestamp>) -> (r: bool)
        ensures
            r == self@.known(known_by),
    {
        match known_by {
            Some(cutoff) => self.declared_at.not_after(cutoff),
            None => true,
        }
    }
}

/// The standing of a subject at a moment.
#[derive(Debug, PartialEq, Eq)]
pub enum Standing {
    /// No declaration touches it.
    Valid,
    /// Void from the start of the window.
    VoidAbInitio {
        /// Why.
        reason: String,
        /// The window.
        window: Interval,
    },
    /// Invalid from a moment on.
    SuspendedFrom {
        /// Why.
        reason: String,
        /// The moment.
        from: Timestamp,
    },
}

/// A standing as a mathematical value.
#[verifier::ext_equal]
pub enum StandingView {
    /// See [`Standing::Valid`].
    Valid,
    /// See [`Standing::VoidAbInitio`].
    VoidAbInitio { reason: Seq<char>, window: Interval },
    /// See [`Standing::SuspendedFrom`].
    SuspendedFrom { reason: Seq<char>, from: Timestamp },
}

impl View for Standing {
    type V = StandingView;

    open spec fn view(&self) -> StandingView {
        match self {
            Standing::Valid => StandingView::Valid,
            Standing::VoidAbInitio { reason, window } => StandingView::VoidAbInitio {
                reason: reason@,
                window: *window,
            },
            Standing::SuspendedFrom { reason, from } => StandingView::SuspendedFrom {
                reason: reason@,
                from: *from,
            },
        }
    }
}

impl Clone for Standing {
    fn clone(&self) -> (r: Standing)
        ensures
            r@ == self@,
    {
        match self {
            Standing::Valid => Standing::Valid,
            Standing::VoidAbInitio { reason, window } => Standing::VoidAbInitio {
                reason: reason.clone(),
                window: *window,
            },
            Standing::SuspendedFrom { reason, from } => Standing::SuspendedFrom {
                reason: reason.clone(),
                from: *from,
            },
        }
    }
}

impl Standing {
    /// Whether the subject may act at the moment.
    pub fn is_valid(&self) -> (r: bool)
        ensures
            r == (self@ is Valid),
    {
        matches!(self, Standing::Valid)
    }

    /// Whether the subject is void from the start.
    pub fn voids_ab_initio(&self) -> (r: bool)
        ensures
            r == (self@ is VoidAbInitio),
    {
        matches!(self, Standing::VoidAbInitio { .. })
    }
}

/// Whether a declaration touches a key at a moment.
pub open spec fn touches_key(
    r: RevocationView,
    key_id: Seq<char>,
    at: Timestamp,
    known_by: Option<Timestamp>,
) -> bool {
    r.subject == SubjectView::Key(key_id) && r.known(known_by) && r.window.has(at)
}

/// What a declaration makes of a subject that it touches.
pub open spec fn effect(r: RevocationView) -> StandingView {
    if r.reason.retroactive() {
        StandingView::VoidAbInitio { reason: r.reason.token(), window: r.window }
    } else {
        StandingView::SuspendedFrom { reason: r.reason.token(), from: r.window.from }
    }
}

/// The standing of a key at a moment under declarations: the first of those
/// that touch it and void from the start, or else the first that touches it.
pub open spec fn key_standing_under(
    revocations: Seq<RevocationView>,
    key_id: Seq<char>,
    at: Timestamp,
    known_by: Option<Timestamp>,
) -> StandingView
    decreases revocations.len(),
{
    if revocations.len() == 0 {
        StandingView::Valid
    } else {
        let before = key_standing_under(revocations.drop_last(), key_id, at, known_by);
        let r = revocations.last();
        if touches_key(r, key_id, at, known_by) && (before is Valid || (before is SuspendedFrom
            && r.reason.retroactive())) {
            effect(r)
        } else {
            before
        }
    }
}

/// A key is void at a moment exactly when a declaration that acts back touches
/// it there, and valid exactly when none touches it: outside every window
/// things stand.
pub proof fn standing_follows_the_windows(
    revocations: Seq<RevocationView>,
    key_id: Seq<char>,
    at: Timestamp,
    known_by: Option<Timestamp>,
)
    ensures
        key_standing_under(revocations, key_id, at, known_by) is VoidAbInitio <==> (exists|i: int|
            0 <= i < revocations.len() && touches_key(
                #[trigger] revocations[i],
                key_id,
                at,
                known_by,
            ) && revocations[i].reason.retroactive()),
        key_standing_under(revocations, key_id, at, known_by) is Valid <==> (forall|i: int|
            0 <= i < revocations.len() ==> !touches_key(
                #[trigger] revocations[i],
                key_id,
                at,
                known_by,
            )),
    decreases revocations.len(),
{
    if revocations.len() > 0 {
        let short = revocations.drop_last();
        standing_follows_the_windows(short, key_id, at, known_by);
        let n = revocations.len() - 1;
        assert forall|i: int| 0 <= i < n implies short[i] == #[trigger] revocations[i] by {}
        if key_standing_under(short, key_id, at, known_by) is VoidAbInitio {
            let i = choose|i: int|
                0 <= i < short.len() && touches_key(#[trigger] short[i], key_id, at, known_by)
                    && short[i].reason.retroactive();
            assert(touches_key(revocations[i], key_id, at, known_by));
        }
        if !(key_standing_under(short, key_id, at, known_by) is Valid) {
            let i = choose|i: int|
                0 <= i < short.len() && touches_key(#[trigger] short[i], key_id, at, known_by);
            assert(touches_key(revocations[i], key_id, at, known_by));
        }
        assert(revocations[n] == revocations.last());
    }
}

/// Which key issued which passport, and when.
#[derive(Debug, Clone, PartialEq, Eq)]
pub struct IssuanceIndex {
    issuances: TextMap<(Timestamp, KeyId)>,
}

impl Default for IssuanceIndex {
    fn default() -> (r: IssuanceIndex)
        ensures
            forall|p: Seq<char>| #[trigger] r.issued(p) is None,
            r.recorded() == Seq::<Seq<char>>::empty(),
    {
        IssuanceIndex::new()
    }
}

impl IssuanceIndex {
    /// The issuance of a passport.
    pub closed spec fn issued(self, passport: Seq<char>) -> Option<(Timestamp, Seq<char>)> {
        match self.issuances.at(passport) {
            Some(x) => Some((x.0, x.1@)),
            None => None,
        }
    }

    /// The recorded passports, in ascending order.
    pub closed spec fn recorded(self) -> Seq<Seq<char>> {
        self.issuances.keys()
    }

    /// The empty index.
    pub fn new() -> (r: IssuanceIndex)
        ensures
            forall|p: Seq<char>| #[trigger] r.issued(p) is None,
            r.recorded() == Seq::<Seq<char>>::empty(),
    {
        IssuanceIndex { issuances: TextMap::new() }
    }

    /// Records that a key signed the issuance of a passport at a moment.
    pub fn record(&mut self, passport: PassportId, at: Timestamp, key_id: KeyId)
        ensures
            forall|p: Seq<char>| #[trigger]
                final(self).issued(p) == (if p == passport@ {
                    Some((at, key_id@))
                } else {
                    old(self).issued(p)
                }),
            final(self).recorded().to_set() == old(self).recorded().to_set().insert(passport@),
            final(self).recorded().len() == old(self).recorded().len() + (if old(self).issued(
                passport@,
            ) is Some {
                0int
            } else {
                1int
            }),
            ascending(final(self).recorded()),
    {
        self.issuances.insert(passport.as_str(), (at, key_id));
    }

    fn lookup(&self, passport: &str) -> (r: Option<(Timestamp, &KeyId)>)
        ensures
            r is Some == self.issued(passport@) is Some,
            r matches Some(x) ==> Some((x.0, x.1@)) == self.issued(passport@),
    {
        match self.issuances.get(passport) {
            Some(x) => Some((x.0, &x.1)),
            None => None,
        }
    }

    /// The moment and the key of a passport's issuance.
    pub fn issuance_of(&self, passport: &PassportId) -> (r: Option<(Timestamp, &KeyId)>)
        ensures
            r is Some == self.issued(passport@) is Some,
            r matches Some(x) ==> Some((x.0, x.1@)) == self.issued(passport@),
    {
        self.lookup(passport.as_str())
    }

    /// The recorded passports, in ascending order.
    pub fn passports(&self) -> (r: Vec<String>)
        ensures
            texts(r@) == self.recorded(),
            ascending(self.recorded()),
            forall|p: Seq<char>| #[trigger] texts(r@).contains(p) == self.issued(p) is Some,
    {
        self.issuances.reveal_order();
        let mut out: Vec<String> = Vec::new();
        let n: usize = self.issuances.len();
        let mut i: usize = 0;
        while i < n
            invariant
                n == self.issuances.keys().len(),
                i <= n,
                texts(out@) =~= self.recorded().take(i as int),
            decreases n - i,
        {
            let ghost before = texts(out@);
            out.push(self.issuances.key_at(i).clone());
            assert(texts(out@) =~= before.push(self.recorded()[i as int]));
            i += 1;
        }
        assert(texts(out@) =~= self.recorded());
        out
    }
}

/// A passport is listed in an index exactly when its issuance is known.
pub proof fn recorded_passports_were_issued(index: IssuanceIndex, passport: Seq<char>)
    ensures
        index.recorded().contains(passport) <==> index.issued(passport) is Some,
{
}

/// The taint that a declaration leaves on a passport that it hits.
pub open spec fn taint_of(r: RevocationView, source: Seq<char>) -> TaintView {
    TaintView {
        source,
        kind: r.reason.taint_kind(),
        reason: r.reason.token(),
        at: r.declared_at,
        window: if r.reason.retroactive() {
            Some(r.window)
        } else {
            None
        },
    }
}

/// Whether a declaration against a passport hits it. One that acts back hits
/// it when it was issued inside the window; where its issuance is not
/// recorded, the moment of the declaration stands for it.
pub open spec fn hits_passport(
    r: RevocationView,
    source: Seq<char>,
    issued: Option<(Timestamp, Seq<char>)>,
    known_by: Option<Timestamp>,
) -> bool {
    r.subject == SubjectView::Passport(source) && r.known(known_by) && (r.window.has(
        match issued {
            Some(x) => x.0,
            None => r.declared_at,
        },
    ) || !r.reason.retroactive())
}

/// Whether a declaration against the key that issued a passport hits the
/// passport.
pub open spec fn hits_issuer(
    r: RevocationView,
    issued: Option<(Timestamp, Seq<char>)>,
    known_by: Option<Timestamp>,
) -> bool {
    issued matches Some(x) && touches_key(r, x.1, x.0, known_by)
}

/// The taints of a source from the declarations against it.
pub open spec fn passport_hits(
    revocations: Seq<RevocationView>,
    source: Seq<char>,
    issued: Option<(Timestamp, Seq<char>)>,
    known_by: Option<Timestamp>,
) -> Seq<TaintView>
    decreases revocations.len(),
{
    if revocations.len() == 0 {
        Seq::empty()
    } else {
        let before = passport_hits(revocations.drop_last(), source, issued, known_by);
        if hits_passport(revocations.last(), source, issued, known_by) {
            before.push(taint_of(revocations.last(), source))
        } else {
            before
        }
    }
}

/// The taints of a source from the declarations against its issuing key.
pub open spec fn issuer_hits(
    revocations: Seq<RevocationView>,
    source: Seq<char>,
    issued: Option<(Timestamp, Seq<char>)>,
    known_by: Option<Timestamp>,
) -> Seq<TaintView>
    decreases revocations.len(),
{
    if revocations.len() == 0 {
        Seq::empty()
    } else {
        let before = issuer_hits(revocations.drop_last(), source, issued, known_by);
        if hits_issuer(revocations.last(), issued, known_by) {
            before.push(taint_of(revocations.last(), source))
        } else {
            before
        }
    }
}

/// The taints of sources, source by source.
pub open spec fn source_hits(
    revocations: Seq<RevocationView>,
    issuers: IssuanceIndex,
    sources: Seq<Seq<char>>,
    known_by: Option<Timestamp>,
) -> Seq<TaintView>
    decreases sources.len(),
{
    if sources.len() == 0 {
        Seq::empty()
    } else {
        let s = sources.last();
        source_hits(revocations, issuers, sources.drop_last(), known_by) + passport_hits(
            revocations,
            s,
            issuers.issued(s),
            known_by,
        ) + issuer_hits(revocations, s, issuers.issued(s), known_by)
    }
}

/// The members of a set of texts in ascending order.
pub open spec fn in_order(s: Set<Seq<char>>) -> Seq<Seq<char>> {
    choose|q: Seq<Seq<char>>| #[trigger] ascending(q) && q.to_set() == s
}

/// The taints in force on a passport: its own and those of everything that
/// went into it, source by source in ascending order, each once.
pub open spec fn taints_under(
    revocations: Seq<RevocationView>,
    passport: Seq<char>,
    issuers: IssuanceIndex,
    provenance: ProvenanceGraph,
    known_by: Option<Timestamp>,
) -> Seq<TaintView> {
    no_repeats(
        source_hits(
            revocations,
            issuers,
            in_order(ancestors_of(provenance.spec_edges(), passport).insert(passport)),
            known_by,
        ),
    )
}

/// A condition that was withdrawn from a node.
#[derive(Debug, PartialEq, Eq)]
pub struct ConditionWithdrawal {
    /// The node that had been granted the condition.
    pub node: NodeId,
    /// The condition.
    pub condition: ScopeCondition,
    /// While the withdrawal is in force.
    pub window: Interval,
}

/// A withdrawal as a mathematical value.
#[verifier::ext_equal]
pub struct WithdrawalView {
    /// See [`ConditionWithdrawal::node`].
    pub node: Seq<char>,
    /// See [`ConditionWithdrawal::condition`].
    pub condition: ConditionView,
    /// See [`ConditionWithdrawal::window`].
    pub window: Interval,
}

impl View for ConditionWithdrawal {
    type V = WithdrawalView;

    open spec fn view(&self) -> WithdrawalView {
        WithdrawalView {
            node: self.node@,
            condition: self.condition@,
            window: self.window,
        }
    }
}

impl Clone for ConditionWithdrawal {
    fn clone(&self) -> (r: ConditionWithdrawal)
        ensures
            r@ == self@,
    {
        ConditionWithdrawal {
            node: self.node.clone(),
            condition: self.condition.clone(),
            window: self.window,
        }
    }
}

/// The withdrawals of a list as mathematical values.
pub open spec fn withdrawal_views(s: Seq<ConditionWithdrawal>) -> Seq<WithdrawalView> {
    s.map_values(|w: ConditionWithdrawal| w@)
}

/// The conditions withdrawn from a node and in force at a moment.
pub open spec fn withdrawn_in(s: Seq<WithdrawalView>, node: Seq<char>, now: Timestamp) -> Seq<
    ConditionView,
>
    decreases s.len(),
{
    if s.len() == 0 {
        Seq::empty()
    } else {
        let before = withdrawn_in(s.drop_last(), node, now);
        if s.last().node == node && s.last().window.has(now) {
            before.push(s.last().condition)
        } else {
            before
        }
    }
}

/// The declarations of distrust. One that acts back is held only with a
/// quorum's attestation.
#[derive(Debug, PartialEq, Eq)]
pub struct RevocationLedger {
    revocations: Vec<Revocation>,
    withdrawals: Vec<ConditionWithdrawal>,
}

/// Whether every declaration that acts back has a quorum's attestation.
pub open spec fn all_attested(s: Seq<RevocationView>) -> bool {
    forall|i: int|
        0 <= i < s.len() && (#[trigger] s[i]).reason.retroactive() ==> s[i].quorum is Some
}

impl Clone for RevocationLedger {
    fn clone(&self) -> (r: RevocationLedger)
        ensures
            r.spec_revocations() == self.spec_revocations(),
            r.spec_withdrawals() == self.spec_withdrawals(),
    {
        proof {
            use_type_invariant(self);
        }
        let ghost declared = revocation_views(self.revocations@);
        let ghost withdrawn = withdrawal_views(self.withdrawals@);
        let mut revocations: Vec<Revocation> = Vec::new();
        let mut i: usize = 0;
        while i < self.revocations.len()
            invariant
                i <= self.revocations.len(),
                declared == revocation_views(self.revocations@),
                revocation_views(revocations@) =~= declared.take(i as int),
            decreases self.revocations.len() - i,
        {
            let ghost before = revocation_views(revocations@);
            let x = self.revocations[i].clone();
            revocations.push(x);
            assert(revocation_views(revocations@) =~= before.push(declared[i as int]));
            i += 1;
        }
        let mut withdrawals: Vec<ConditionWithdrawal> = Vec::new();
        let mut j: usize = 0;
        while j < self.withdrawals.len()
            invariant
                j <= self.withdrawals.len(),
                withdrawn == withdrawal_views(self.withdrawals@),
                withdrawal_views(withdrawals@) =~= withdrawn.take(j as int),
            decreases self.withdrawals.len() - j,
        {
            let ghost before = withdrawal_views(withdrawals@);
            let x = self.withdrawals[j].clone();
            withdrawals.push(x);
            assert(withdrawal_views(withdrawals@) =~= before.push(withdrawn[j as int]));
            j += 1;
        }
        assert(revocation_views(revocations@) =~= declared);
        assert(withdrawal_views(withdrawals@) =~= withdrawn);
        RevocationLedger { revocations, withdrawals }
    }
}

impl Default for RevocationLedger {
    fn default() -> (r: RevocationLedger)
        ensures
            r.spec_revocations() == Seq::<RevocationView>::empty(),
            r.spec_withdrawals() == Seq::<WithdrawalView>::empty(),
    {
        RevocationLedger::new()
    }
}

impl RevocationLedger {
    #[verifier::type_invariant]
    spec fn attested(self) -> bool {
        all_attested(self.spec_revocations())
    }

    /// The declarations.
    pub closed spec fn spec_revocations(self) -> Seq<RevocationView> {
        revocation_views(self.revocations@)
    }

    /// The withdrawn conditions.
    pub closed spec fn spec_withdrawals(self) -> Seq<WithdrawalView> {
        withdrawal_views(self.withdrawals@)
    }

    /// The empty ledger.
    pub fn new() -> (r: RevocationLedger)
        ensures
            r.spec_revocations() == Seq::<RevocationView>::empty(),
            r.spec_withdrawals() == Seq::<WithdrawalView>::empty(),
    {
        let r = RevocationLedger { revocations: Vec::new(), withdrawals: Vec::new() };
        assert(r.spec_revocations() =~= Seq::<RevocationView>::empty());
        assert(r.spec_withdrawals() =~= Seq::<WithdrawalView>::empty());
        r
    }

    /// The declarations.
    pub fn revocations(&self) -> (r: &[Revocation])
        ensures
            revocation_views(r@) == self.spec_revocations(),
            all_attested(self.spec_revocations()),
    {
        proof {
            use_type_invariant(self);
        }
        self.revocations.as_slice()
    }

    /// Declares distrust. One that acts back needs a quorum's attestation,
    /// which the caller checks with [`QuorumAttestation::is_quorate`].
    pub fn declare(&mut self, revocation: Revocation) -> (r: Result<(), SignatifError>)
        ensures
            r is Err == (revocation@.reason.retroactive() && revocation@.quorum is None),
            r matches Err(e) ==> e@ == (ErrorView::QuorumRequired {
                subject: revocation@.subject.label(),
            }),
            final(self).spec_revocations() == (if r is Ok {
                old(self).spec_revocations().push(revocation@)
            } else {
                old(self).spec_revocations()
            }),
            final(self).spec_withdrawals() == old(self).spec_withdrawals(),
    {
        if revocation.reason.is_retroactive() && revocation.quorum.is_none() {
            return Err(SignatifError::QuorumRequired { subject: revocation.subject.label() });
        }
        proof {
            use_type_invariant(&*self);
        }
        let ghost before = self.spec_revocations();
        let ghost new = revocation@;
        let mut list: Vec<Revocation> = Vec::new();
        std::mem::swap(&mut list, &mut self.revocations);
        list.push(revocation);
        assert(revocation_views(list@) =~= before.push(new));
        self.revocations = list;
        Ok(())
    }

    /// Withdraws a condition from a node.
    pub fn withdraw_condition(&mut self, withdrawal: ConditionWithdrawal)
        ensures
            final(self).spec_withdrawals() == old(self).spec_withdrawals().push(withdrawal@),
            final(self).spec_revocations() == old(self).spec_revocations(),
    {
        proof {
            use_type_invariant(&*self);
        }
        let ghost before = self.spec_withdrawals();
        let mut list: Vec<ConditionWithdrawal> = Vec::new();
        std::mem::swap(&mut list, &mut self.withdrawals);
        list.push(withdrawal);
        assert(withdrawal_views(list@) =~= before.push(withdrawal@));
        self.withdrawals = list;
    }

    /// The conditions withdrawn from a node and in force at a moment.
    pub fn withdrawn_conditions_at(&self, node: &NodeId, now: Timestamp) -> (r: Vec<ScopeCondition>)
        ensures
            crate::scope::condition_views(r@) == withdrawn_in(
                self.spec_withdrawals(),
                node@,
                now,
            ),
    {
        let ghost all = self.spec_withdrawals();
        let mut out: Vec<ScopeCondition> = Vec::new();
        let mut i: usize = 0;
        assert(all.take(0) =~= Seq::<WithdrawalView>::empty());
        assert(crate::scope::condition_views(out@) =~= Seq::<ConditionView>::empty());
        while i < self.withdrawals.len()
            invariant
                i <= self.withdrawals.len(),
                all == self.spec_withdrawals(),
                crate::scope::condition_views(out@) == withdrawn_in(
                    all.take(i as int),
                    node@,
                    now,
                ),
            decreases self.withdrawals.len() - i,
        {
            proof {
                assert(all.take(i + 1).drop_last() =~= all.take(i as int));
                assert(all.take(i + 1).last() == self.withdrawals@[i as int]@);
            }
            let w = &self.withdrawals[i];
            let ghost before = crate::scope::condition_views(out@);
            if w.node.same(node) && w.window.contains(now) {
                let c = w.condition.clone();
                out.push(c);
                assert(crate::scope::condition_views(out@) =~= before.push(c@));
            }
            i += 1;
        }
        assert(all.take(i as int) =~= all);
        out
    }

    /// The standing of what a key did at a moment, by the declarations known
    /// by another moment, or by all of them.
    pub fn key_standing_at(
        &self,
        key_id: &KeyId,
        at: Timestamp,
        known_by: Option<Timestamp>,
    ) -> (r: Standing)
        ensures
            r@ == key_standing_under(self.spec_revocations(), key_id@, at, known_by),
    {
        let ghost all = self.spec_revocations();
        let mut standing = Standing::Valid;
        let mut i: usize = 0;
        assert(all.take(0) =~= Seq::<RevocationView>::empty());
        while i < self.revocations.len()
            invariant
                i <= self.revocations.len(),
                all == self.spec_revocations(),
                standing@ == key_standing_under(all.take(i as int), key_id@, at, known_by),
            decreases self.revocations.len() - i,
        {
            proof {
                assert(all.take(i + 1).drop_last() =~= all.take(i as int));
                assert(all.take(i + 1).last() == self.revocations@[i as int]@);
            }
            let r = &self.revocations[i];
            if r.subject.is_key(key_id) && r.known(known_by) && r.voids(at) {
                let back = r.reason.is_retroactive();
                let dominates = match &standing {
                    Standing::Valid => true,
                    Standing::SuspendedFrom { .. } => back,
                    Standing::VoidAbInitio { .. } => false,
                };
                if dominates {
                    let reason = r.reason.token().to_owned();
                    standing = if back {
                        Standing::VoidAbInitio { reason, window: r.window }
                    } else {
                        Standing::SuspendedFrom { reason, from: r.window.from }
                    };
                }
            }
            i += 1;
        }
        assert(all.take(i as int) =~= all);
        standing
    }

    /// The standing of what a key did at a moment, by all declarations.
    pub fn key_standing(&self, key_id: &KeyId, at: Timestamp) -> (r: Standing)
        ensures
            r@ == key_standing_under(self.spec_revocations(), key_id@, at, None),
    {
        self.key_standing_at(key_id, at, None)
    }

    /// Adds the taints of a source to a set of taints.
    fn add_source(
        &self,
        source: &PassportId,
        issuers: &IssuanceIndex,
        known_by: Option<Timestamp>,
        out: &mut TaintSet,
        Ghost(held): Ghost<Seq<TaintView>>,
    )
        requires
            old(out)@ == no_repeats(held),
        ensures
            final(out)@ == no_repeats(
                held + passport_hits(
                    self.spec_revocations(),
                    source@,
                    issuers.issued(source@),
                    known_by,
                ) + issuer_hits(
                    self.spec_revocations(),
                    source@,
                    issuers.issued(source@),
                    known_by,
                ),
            ),
    {
        let ghost all = self.spec_revocations();
        let issued = issuers.issuance_of(source);
        let ghost was = issuers.issued(source@);
        let mut i: usize = 0;
        assert(all.take(0) =~= Seq::<RevocationView>::empty());
        assert(held + Seq::<TaintView>::empty() =~= held);
        while i < self.revocations.len()
            invariant
                i <= self.revocations.len(),
                all == self.spec_revocations(),
                was == issuers.issued(source@),
                issued is Some == was is Some,
                issued matches Some(x) ==> Some((x.0, x.1@)) == was,
                out@ == no_repeats(
                    held + passport_hits(all.take(i as int), source@, was, known_by),
                ),
            decreases self.revocations.len() - i,
        {
            proof {
                assert(all.take(i + 1).drop_last() =~= all.take(i as int));
                assert(all.take(i + 1).last() == self.revocations@[i as int]@);
            }
            let r = &self.revocations[i];
            let ghost before = held + passport_hits(all.take(i as int), source@, was, known_by);
            if r.subject.is_passport(source.as_str()) && r.known(known_by) {
                let moment = match issued {
                    Some(x) => x.0,
                    None => r.declared_at,
                };
                if r.voids(moment) || !r.reason.is_retroactive() {
                    let t = leave_taint(r, source);
                    out.add(t);
                    proof {
                        let after = held + passport_hits(
                            all.take(i + 1),
                            source@,
                            was,
                            known_by,
                        );
                        assert(after =~= before.push(t@));
                        assert(after.drop_last() =~= before);
                    }
                }
            }
            i += 1;
        }
        assert(all.take(i as int) =~= all);
        let ghost own = held + passport_hits(all, source@, was, known_by);
        assert(own + Seq::<TaintView>::empty() =~= own);
        if let Some((at, key_id)) = issued {
            let mut j: usize = 0;
            while j < self.revocations.len()
                invariant
                    j <= self.revocations.len(),
                    all == self.spec_revocations(),
                    was == Some((at, key_id@)),
                    out@ == no_repeats(
                        own + issuer_hits(all.take(j as int), source@, was, known_by),
                    ),
                decreases self.revocations.len() - j,
            {
                proof {
                    assert(all.take(j + 1).drop_last() =~= all.take(j as int));
                    assert(all.take(j + 1).last() == self.revocations@[j as int]@);
                }
                let r = &self.revocations[j];
                let ghost before = own + issuer_hits(all.take(j as int), source@, was, known_by);
                if r.subject.is_key(key_id) && r.known(known_by) && r.voids(at) {
                    let t = leave_taint(r, source);
                    out.add(t);
                    proof {
                        let after = own + issuer_hits(all.take(j + 1), source@, was, known_by);
                        assert(after =~= before.push(t@));
                        assert(after.drop_last() =~= before);
                    }
                }
                j += 1;
            }
            assert(all.take(j as int) =~= all);
        } else {
            proof {
                lemma_no_issuer_hits(all, source@, known_by);
            }
        }
    }

    /// The taints in force on a passport: its own and those of everything that
    /// went into it, by the declarations known by a moment, or by all of them.
    pub fn taints_of(
        &self,
        passport: &PassportId,
        issuers: &IssuanceIndex,
        provenance: &ProvenanceGraph,
        known_by: Option<Timestamp>,
    ) -> (r: TaintSet)
        ensures
            r@ == taints_under(
                self.spec_revocations(),
                passport@,
                *issuers,
                *provenance,
                known_by,
            ),
    {
        let mut sources = provenance.ancestors(passport);
        sources.insert(passport.as_str());
        sources.reveal_order();
        let ghost all = sources@;
        let ghost revocations = self.spec_revocations();
        proof {
            let s = ancestors_of(provenance.spec_edges(), passport@).insert(passport@);
            assert(all.to_set() =~= s);
            let q = in_order(s);
            assert(ascending(q) && q.to_set() == s);
            crate::sets::lemma_ascending_determined(q, all);
        }
        let mut out = TaintSet::new();
        let mut i: usize = 0;
        let n = sources.len();
        assert(all.take(0) =~= Seq::<Seq<char>>::empty());
        while i < n
            invariant
                i <= n,
                n == all.len(),
                all == sources@,
                revocations == self.spec_revocations(),
                out@ == no_repeats(
                    source_hits(revocations, *issuers, all.take(i as int), known_by),
                ),
            decreases n - i,
        {
            proof {
                assert(all.take(i + 1).drop_last() =~= all.take(i as int));
                assert(all.take(i + 1).last() == all[i as int]);
            }
            let source = PassportId::listed(sources.get(i));
            self.add_source(
                &source,
                issuers,
                known_by,
                &mut out,
                Ghost(source_hits(revocations, *issuers, all.take(i as int), known_by)),
            );
            i += 1;
        }
        assert(all.take(i as int) =~= all);
        out
    }

    /// The taints in force on a passport by all declarations.
    pub fn current_taints(
        &self,
        passport: &PassportId,
        issuers: &IssuanceIndex,
        provenance: &ProvenanceGraph,
    ) -> (r: TaintSet)
        ensures
            r@ == taints_under(self.spec_revocations(), passport@, *issuers, *provenance, None),
    {
        self.taints_of(passport, issuers, provenance, None)
    }

    /// The taints on a passport that could be known at a moment.
    pub fn taints_known_at(
        &self,
        passport: &PassportId,
        issuers: &IssuanceIndex,
        provenance: &ProvenanceGraph,
        at: Timestamp,
    ) -> (r: TaintSet)
        ensures
            r@ == taints_under(
                self.spec_revocations(),
                passport@,
                *issuers,
                *provenance,
                Some(at),
            ),
    {
        self.taints_of(passport, issuers, provenance, Some(at))
    }
}

/// Every finite set of texts can be listed in ascending order.
proof fn lemma_in_order(s: Set<Seq<char>>)
    requires
        s.finite(),
    ensures
        ascending(in_order(s)),
        in_order(s).to_set() == s,
    decreases s.len(),
{
    let q = if s.len() == 0 {
        let q = Seq::<Seq<char>>::empty();
        assert(q.to_set() =~= s);
        q
    } else {
        let x = s.choose();
        let rest = s.remove(x);
        lemma_in_order(rest);
        let before = in_order(rest);
        let i = places_before(before, x);
        lemma_places_before(before, x);
        if i < before.len() {
            assert(before.contains(before[i]));
            assert(rest.contains(before[i]));
            crate::text::lemma_text_lt_total(before[i], x);
        }
        crate::maps::lemma_insert_ascending(before, i, x);
        crate::maps::lemma_insert_set(before, i, x);
        assert(rest.insert(x) =~= s);
        before.insert(i, x)
    };
    assert(ascending(q) && q.to_set() == s);
}

/// How many texts at the start of a list are before a text.
spec fn places_before(s: Seq<Seq<char>>, x: Seq<char>) -> int
    decreases s.len(),
{
    if s.len() > 0 && crate::text::text_lt(s[0], x) {
        1 + places_before(s.skip(1), x)
    } else {
        0
    }
}

proof fn lemma_places_before(s: Seq<Seq<char>>, x: Seq<char>)
    ensures
        0 <= places_before(s, x) <= s.len(),
        forall|k: int| 0 <= k < places_before(s, x) ==> crate::text::text_lt(#[trigger] s[k], x),
        places_before(s, x) < s.len() ==> !crate::text::text_lt(s[places_before(s, x)], x),
    decreases s.len(),
{
    if s.len() > 0 && crate::text::text_lt(s[0], x) {
        let t = s.skip(1);
        lemma_places_before(t, x);
        assert forall|k: int| 0 <= k < places_before(s, x) implies crate::text::text_lt(
            #[trigger] s[k],
            x,
        ) by {
            if k > 0 {
                assert(t[k - 1] == s[k]);
            }
        }
    }
}

proof fn lemma_passport_hits(
    revocations: Seq<RevocationView>,
    source: Seq<char>,
    issued: Option<(Timestamp, Seq<char>)>,
    known_by: Option<Timestamp>,
    t: TaintView,
)
    ensures
        passport_hits(revocations, source, issued, known_by).contains(t) <==> (exists|i: int|
            0 <= i < revocations.len() && hits_passport(
                #[trigger] revocations[i],
                source,
                issued,
                known_by,
            ) && t == taint_of(revocations[i], source)),
    decreases revocations.len(),
{
    if revocations.len() > 0 {
        let short = revocations.drop_last();
        lemma_passport_hits(short, source, issued, known_by, t);
        let before = passport_hits(short, source, issued, known_by);
        let after = passport_hits(revocations, source, issued, known_by);
        let last = revocations.len() - 1;
        if before.contains(t) {
            let k = before.index_of(t);
            assert(after[k] == t);
            let i = choose|i: int|
                0 <= i < short.len() && hits_passport(
                    #[trigger] short[i],
                    source,
                    issued,
                    known_by,
                ) && t == taint_of(short[i], source);
            assert(hits_passport(revocations[i], source, issued, known_by));
        }
        if after.contains(t) && !before.contains(t) {
            let k = after.index_of(t);
            if k < before.len() {
                assert(before[k] == t);
            }
            assert(hits_passport(revocations[last], source, issued, known_by));
        }
        if exists|i: int|
            0 <= i < revocations.len() && hits_passport(
                #[trigger] revocations[i],
                source,
                issued,
                known_by,
            ) && t == taint_of(revocations[i], source) {
            let i = choose|i: int|
                0 <= i < revocations.len() && hits_passport(
                    #[trigger] revocations[i],
                    source,
                    issued,
                    known_by,
                ) && t == taint_of(revocations[i], source);
            if i < last {
                assert(hits_passport(short[i], source, issued, known_by));
            } else {
                assert(after[before.len() as int] == t);
            }
        }
    }
}

proof fn lemma_issuer_hits(
    revocations: Seq<RevocationView>,
    source: Seq<char>,
    issued: Option<(Timestamp, Seq<char>)>,
    known_by: Option<Timestamp>,
    t: TaintView,
)
    ensures
        issuer_hits(revocations, source, issued, known_by).contains(t) <==> (exists|i: int|
            0 <= i < revocations.len() && hits_issuer(#[trigger] revocations[i], issued, known_by)
                && t == taint_of(revocations[i], source)),
    decreases revocations.len(),
{
    if revocations.len() > 0 {
        let short = revocations.drop_last();
        lemma_issuer_hits(short, source, issued, known_by, t);
        let before = issuer_hits(short, source, issued, known_by);
        let after = issuer_hits(revocations, source, issued, known_by);
        let last = revocations.len() - 1;
        if before.contains(t) {
            let k = before.index_of(t);
            assert(after[k] == t);
            let i = choose|i: int|
                0 <= i < short.len() && hits_issuer(#[trigger] short[i], issued, known_by) && t
                    == taint_of(short[i], source);
            assert(hits_issuer(revocations[i], issued, known_by));
        }
        if after.contains(t) && !before.contains(t) {
            let k = after.index_of(t);
            if k < before.len() {
                assert(before[k] == t);
            }
            assert(hits_issuer(revocations[last], issued, known_by));
        }
        if exists|i: int|
            0 <= i < revocations.len() && hits_issuer(#[trigger] revocations[i], issued, known_by)
                && t == taint_of(revocations[i], source) {
            let i = choose|i: int|
                0 <= i < revocations.len() && hits_issuer(
                    #[trigger] revocations[i],
                    issued,
                    known_by,
                ) && t == taint_of(revocations[i], source);
            if i < last {
                assert(hits_issuer(short[i], issued, known_by));
            } else {
                assert(after[before.len() as int] == t);
            }
        }
    }
}

proof fn lemma_source_hits(
    revocations: Seq<RevocationView>,
    issuers: IssuanceIndex,
    sources: Seq<Seq<char>>,
    known_by: Option<Timestamp>,
    t: TaintView,
)
    ensures
        source_hits(revocations, issuers, sources, known_by).contains(t) <==> (exists|k: int|
            0 <= k < sources.len() && hit_leaves(
                revocations,
                issuers,
                #[trigger] sources[k],
                known_by,
                t,
            )),
    decreases sources.len(),
{
    if sources.len() > 0 {
        let short = sources.drop_last();
        lemma_source_hits(revocations, issuers, short, known_by, t);
        let s = sources.last();
        let a = source_hits(revocations, issuers, short, known_by);
        let b = passport_hits(revocations, s, issuers.issued(s), known_by);
        let c = issuer_hits(revocations, s, issuers.issued(s), known_by);
        lemma_passport_hits(revocations, s, issuers.issued(s), known_by, t);
        lemma_issuer_hits(revocations, s, issuers.issued(s), known_by, t);
        let all = a + b + c;
        if a.contains(t) {
            assert(all[a.index_of(t)] == t);
            let k = choose|k: int|
                0 <= k < short.len() && hit_leaves(
                    revocations,
                    issuers,
                    #[trigger] short[k],
                    known_by,
                    t,
                );
            assert(hit_leaves(revocations, issuers, sources[k], known_by, t));
        }
        if b.contains(t) {
            assert(all[a.len() + b.index_of(t)] == t);
            assert(hit_leaves(revocations, issuers, sources[sources.len() - 1], known_by, t));
        }
        if c.contains(t) {
            assert(all[a.len() + b.len() + c.index_of(t)] == t);
            assert(hit_leaves(revocations, issuers, sources[sources.len() - 1], known_by, t));
        }
        if all.contains(t) {
            let k = all.index_of(t);
            if k < a.len() {
                assert(a[k] == t);
            } else if k < a.len() + b.len() {
                assert(b[k - a.len()] == t);
            } else {
                assert(c[k - a.len() - b.len()] == t);
            }
        }
        if exists|k: int|
            0 <= k < sources.len() && hit_leaves(
                revocations,
                issuers,
                #[trigger] sources[k],
                known_by,
                t,
            ) {
            let k = choose|k: int|
                0 <= k < sources.len() && hit_leaves(
                    revocations,
                    issuers,
                    #[trigger] sources[k],
                    known_by,
                    t,
                );
            if k < short.len() {
                assert(hit_leaves(revocations, issuers, short[k], known_by, t));
            }
        }
    }
}

/// Whether some declaration hits a source and leaves a taint.
pub open spec fn hit_leaves(
    revocations: Seq<RevocationView>,
    issuers: IssuanceIndex,
    source: Seq<char>,
    known_by: Option<Timestamp>,
    t: TaintView,
) -> bool {
    ||| exists|i: int|
        0 <= i < revocations.len() && hits_passport(
            #[trigger] revocations[i],
            source,
            issuers.issued(source),
            known_by,
        ) && t == taint_of(revocations[i], source)
    ||| exists|i: int|
        0 <= i < revocations.len() && hits_issuer(
            #[trigger] revocations[i],
            issuers.issued(source),
            known_by,
        ) && t == taint_of(revocations[i], source)
}

/// A passport has a taint exactly when a declaration leaves it on the passport
/// or on something that went into the passport: taints reach everything that
/// was made from what they hit, and nothing else.
pub proof fn taints_cascade(
    revocations: Seq<RevocationView>,
    passport: Seq<char>,
    issuers: IssuanceIndex,
    provenance: ProvenanceGraph,
    known_by: Option<Timestamp>,
    t: TaintView,
)
    ensures
        taints_under(revocations, passport, issuers, provenance, known_by).contains(t) <==> (
        hit_leaves(revocations, issuers, t.source, known_by, t) && (t.source == passport
            || is_ancestor(provenance.spec_edges(), passport, t.source))),
{
    let edges = provenance.spec_edges();
    crate::lineage::lemma_ancestors(edges, passport);
    let s = ancestors_of(edges, passport).insert(passport);
    lemma_in_order(s);
    let sources = in_order(s);
    let hits = source_hits(revocations, issuers, sources, known_by);
    crate::taint::lemma_no_repeats_members(hits);
    lemma_source_hits(revocations, issuers, sources, known_by, t);
    if hits.contains(t) {
        let k = choose|k: int|
            0 <= k < sources.len() && hit_leaves(
                revocations,
                issuers,
                #[trigger] sources[k],
                known_by,
                t,
            );
        assert(t.source == sources[k]);
        assert(sources.contains(sources[k]));
        assert(s.contains(t.source));
    }
    if s.contains(t.source) {
        assert(sources.contains(t.source));
        let k = sources.index_of(t.source);
        assert(sources[k] == t.source);
    }
}

/// What could be known at a moment is part of what is known by all
/// declarations: later declarations take no taint away.
pub proof fn knowledge_only_grows(
    revocations: Seq<RevocationView>,
    passport: Seq<char>,
    issuers: IssuanceIndex,
    provenance: ProvenanceGraph,
    at: Timestamp,
    t: TaintView,
)
    requires
        taints_under(revocations, passport, issuers, provenance, Some(at)).contains(t),
    ensures
        taints_under(revocations, passport, issuers, provenance, None).contains(t),
{
    taints_cascade(revocations, passport, issuers, provenance, Some(at), t);
    taints_cascade(revocations, passport, issuers, provenance, None, t);
    let issued = issuers.issued(t.source);
    if exists|i: int|
        0 <= i < revocations.len() && hits_passport(
            #[trigger] revocations[i],
            t.source,
            issued,
            Some(at),
        ) && t == taint_of(revocations[i], t.source) {
        let i = choose|i: int|
            0 <= i < revocations.len() && hits_passport(
                #[trigger] revocations[i],
                t.source,
                issued,
                Some(at),
            ) && t == taint_of(revocations[i], t.source);
        assert(hits_passport(revocations[i], t.source, issued, None));
    } else {
        let i = choose|i: int|
            0 <= i < revocations.len() && hits_issuer(#[trigger] revocations[i], issued, Some(at))
                && t == taint_of(revocations[i], t.source);
        assert(hits_issuer(revocations[i], issued, None));
    }
}

fn leave_taint(r: &Revocation, source: &PassportId) -> (t: Taint)
    ensures
        t@ == taint_of(r@, source@),
{
    Taint {
        source: source.clone(),
        kind: r.reason.taint_kind(),
        reason: r.reason.token().to_owned(),
        at: r.declared_at,
        window: if r.reason.is_retroactive() {
            Some(r.window)
        } else {
            None
        },
    }
}

proof fn lemma_no_issuer_hits(
    revocations: Seq<RevocationView>,
    source: Seq<char>,
    known_by: Option<Timestamp>,
)
    ensures
        issuer_hits(revocations, source, None, known_by) == Seq::<TaintView>::empty(),
    decreases revocations.len(),
{
    if revocations.len() > 0 {
        lemma_no_issuer_hits(revocations.drop_last(), source, known_by);
    }
}

proof fn lemma_verifying_keys(
    slots: Seq<SlotView>,
    payload: Seq<u8>,
    directory: KeyDirectory,
)
    requires
        forall|i: int|
            0 <= i < slots.len() ==> (directory.lookup((#[trigger] slots[i]).key_id) matches Some(k)
                && slots[i].verifies(SigningDomain::Quorum, payload, k)),
        forall|i: int, j: int|
            0 <= i < j < slots.len() ==> (#[trigger] slots[i]).key_id != (#[trigger] slots[j]).key_id,
    ensures
        verifying_keys(slots, payload, directory).finite(),
        verifying_keys(slots, payload, directory).len() == slots.len(),
        forall|id: Seq<char>| #[trigger]
            verifying_keys(slots, payload, directory).contains(id) ==> exists|i: int|
                0 <= i < slots.len() && (#[trigger] slots[i]).key_id == id,
    decreases slots.len(),
{
    if slots.len() > 0 {
        let front = slots.drop_last();
        assert forall|i: int| 0 <= i < front.len() implies (directory.lookup(
            (#[trigger] front[i]).key_id,
        ) matches Some(k) && front[i].verifies(SigningDomain::Quorum, payload, k)) by {
            assert(front[i] == slots[i]);
        }
        lemma_verifying_keys(front, payload, directory);
        let before = verifying_keys(front, payload, directory);
        assert(slots.last() == slots[slots.len() - 1]);
        if before.contains(slots.last().key_id) {
            let i = choose|i: int|
                0 <= i < front.len() && (#[trigger] front[i]).key_id == slots.last().key_id;
            assert(slots[i].key_id == slots[slots.len() - 1].key_id);
        }
        assert forall|id: Seq<char>| #[trigger]
            verifying_keys(slots, payload, directory).contains(id) implies exists|i: int|
            0 <= i < slots.len() && (#[trigger] slots[i]).key_id == id by {
            if before.contains(id) {
                let i = choose|i: int| 0 <= i < front.len() && (#[trigger] front[i]).key_id == id;
                assert(slots[i].key_id == id);
            } else {
                assert(slots[slots.len() - 1].key_id == id);
            }
        }
    }
}

/// A statement that enough distinct registered members signed is quorate.
pub proof fn signed_quorums_are_quorate(
    quorum: QuorumView,
    statement: Seq<u8>,
    members: Seq<&KeyPair>,
    directory: KeyDirectory,
)
    requires
        members.len() >= quorum.threshold,
        all_issued(
            members,
            SigningDomain::Quorum,
            quorum_bytes(statement, quorum.quorum, quorum.threshold),
            quorum.signatures,
        ),
        forall|i: int|
            0 <= i < members.len() ==> directory.lookup(
                key_id_of((#[trigger] members[i]).spec_public()),
            ) == Some(members[i].spec_public()),
        forall|i: int, j: int|
            0 <= i < j < members.len() ==> key_id_of((#[trigger] members[i]).spec_public())
                != key_id_of((#[trigger] members[j]).spec_public()),
    ensures
        quorum.quorate(statement, directory),
{
    let slots = quorum.signatures;
    let payload = quorum_bytes(statement, quorum.quorum, quorum.threshold);
    assert forall|i: int| 0 <= i < slots.len() implies (directory.lookup(
        (#[trigger] slots[i]).key_id,
    ) matches Some(k) && slots[i].verifies(SigningDomain::Quorum, payload, k)) by {
        assert(issued(*members[i], SigningDomain::Quorum, payload, slots[i]));
    }
    assert forall|i: int, j: int| 0 <= i < j < slots.len() implies (#[trigger] slots[i]).key_id != (
    #[trigger] slots[j]).key_id by {
        assert(issued(*members[i], SigningDomain::Quorum, payload, slots[i]));
        assert(issued(*members[j], SigningDomain::Quorum, payload, slots[j]));
    }
    lemma_verifying_keys(slots, payload, directory);
}

} // verus!
