//! Verification: what a verifier concludes about an artifact from its
//! signatures, the trust graph and the ledger of distrust.
//!
//! Every signature slot gets its own report: whether it verifies, how its key
//! stands, whether a trust path leads to it, and whether the conditions of that
//! path hold. What the artifact's own record comes to (its chain of events, its
//! anchor, its coverage and freshness) is an [`Outcome`] that the caller brings.

use vstd::prelude::*;

use crate::anchor::{inclusion_check, InclusionProof, SignedTreeHead};
use crate::canon::{i64_bytes, text_field, CanonicalWriter};
use crate::digest::Hash32;
use crate::graph::search::Search;
use crate::graph::{
    credential_views, directory_of, owner_of, AnchorBundle, CredentialView, GraphView, TrustGraph,
    TrustPath,
};
use crate::keyring::{KeyId, KeyPair, KeyView, PublicKey};
use crate::lineage::{PassportId, ProvenanceGraph};
use crate::revoke::{
    hits_issuer, hits_passport, key_standing_under, knowledge_only_grows, taint_of,
    taints_cascade, taints_under, withdrawn_in, IssuanceIndex, RevocationLedger,
    RevocationView, Standing, StandingView, WithdrawalView,
};
use crate::scope::{
    condition_views, first_failing, ConditionView, RequestView, ScopeCondition, ScopeRequest,
    ScopeView,
};
use crate::sign::{
    signing_error, slot_verdict, slot_verdicts, slot_views, verdict_views, Acceptance,
    AcceptancePolicy, CoSignature, CoSignatureReport, CoSignatureView, CompositeSignature,
    CompositeView, SigSlot, SignatureSlot, SigningDomain, SlotVerdict, SlotVerdictView, SlotView,
    Suite,
};
use crate::signer::issued;
use crate::taint::{any_voids, taint_views, TaintSet, TaintView};
use crate::text::{cat2, cat3, cat5};
use crate::time::{Interval, Timestamp};
use crate::{ErrorView, SignatifError};

verus! {

/// Which question a verdict answers.
#[derive(Debug, Clone, Copy, PartialEq, Eq, Structural)]
pub enum Reading {
    /// Is the evidence sound?
    Evidentiary,
    /// Does trust lead to the signer?
    TrustPath,
    /// How does the artifact stand now?
    CurrentState,
}

/// Why a record is accepted only with reservations.
#[derive(Debug, Clone, PartialEq, Eq)]
pub enum Degradation {
    /// The data are older than the profile allows.
    StaleData {
        /// Their age in seconds.
        age_secs: i64,
    },
    /// Nothing shows how old the data are.
    NoFreshnessEvidence,
    /// There is no anchor to hold the record against.
    OfflineNoAnchor,
    /// The signatures are framed and not computed.
    SignaturesFramedOnly,
    /// Data points of the profile are missing.
    CoverageIncomplete {
        /// Which.
        missing: Vec<String>,
    },
}

/// Why a record fails.
#[derive(Debug, Clone, Copy, PartialEq, Eq, Structural)]
pub enum Failure {
    /// Its chain is broken.
    BrokenChain,
    /// It is not what the anchor commits to.
    AnchorMismatch,
}

/// What a record comes to.
#[derive(Debug, Clone, PartialEq, Eq)]
pub enum Outcome {
    /// It passes.
    Pass,
    /// It passes with reservations.
    Degraded(Degradation),
    /// It fails.
    Fail(Failure),
}

/// The token of an outcome.
pub open spec fn token_of(outcome: Outcome) -> Seq<char> {
    match outcome {
        Outcome::Pass => "pass"@,
        Outcome::Degraded(Degradation::StaleData { .. }) => "degraded/stale-data"@,
        Outcome::Degraded(Degradation::NoFreshnessEvidence) => "degraded/no-freshness-evidence"@,
        Outcome::Degraded(Degradation::OfflineNoAnchor) => "degraded/offline-no-anchor"@,
        Outcome::Degraded(Degradation::SignaturesFramedOnly) =>
        "degraded/signatures-framed-only"@,
        Outcome::Degraded(Degradation::CoverageIncomplete { .. }) =>
        "degraded/coverage-incomplete"@,
        Outcome::Fail(Failure::BrokenChain) => "fail/broken-chain"@,
        Outcome::Fail(Failure::AnchorMismatch) => "fail/anchor-mismatch"@,
    }
}

/// The token of an outcome.
pub fn outcome_token(outcome: &Outcome) -> (r: &'static str)
    ensures
        r@ == token_of(*outcome),
{
    match outcome {
        Outcome::Pass => "pass",
        Outcome::Degraded(Degradation::StaleData { .. }) => "degraded/stale-data",
        Outcome::Degraded(Degradation::NoFreshnessEvidence) => "degraded/no-freshness-evidence",
        Outcome::Degraded(Degradation::OfflineNoAnchor) => "degraded/offline-no-anchor",
        Outcome::Degraded(Degradation::SignaturesFramedOnly) => "degraded/signatures-framed-only",
        Outcome::Degraded(Degradation::CoverageIncomplete { .. }) => "degraded/coverage-incomplete",
        Outcome::Fail(Failure::BrokenChain) => "fail/broken-chain",
        Outcome::Fail(Failure::AnchorMismatch) => "fail/anchor-mismatch",
    }
}

/// How an artifact stands now.
#[derive(Debug, Clone, PartialEq, Eq)]
pub struct CurrentStateReading {
    /// Whether it is void from the start.
    pub voids_ab_initio: bool,
    /// The number of its active links.
    pub active_links: usize,
}

/// The verdict on an artifact.
#[derive(Debug, Clone, PartialEq, Eq)]
pub struct Verdict {
    /// Which question it answers.
    pub reading_answered: Reading,
    /// What the record comes to.
    pub outcome: Outcome,
    /// How the artifact stands now.
    pub current_state: CurrentStateReading,
}

/// A trust path as a mathematical value.
#[verifier::ext_equal]
pub struct PathView {
    /// The root.
    pub root: Seq<char>,
    /// The owner of the key.
    pub end: Seq<char>,
    /// The credentials from the root on.
    pub credentials: Seq<CredentialView>,
    /// The effective scope.
    pub scope: ScopeView,
}

/// A trust path as a mathematical value.
pub open spec fn path_of_trust(t: TrustPath) -> PathView {
    PathView {
        root: t.root@,
        end: t.end@,
        credentials: credential_views(t.credentials@),
        scope: t.effective_scope@,
    }
}

/// The trust path to a key, or why there is none.
pub open spec fn trust_path(
    graph: GraphView,
    key_id: Seq<char>,
    request: RequestView,
    bundle: AnchorBundle,
) -> Result<PathView, ErrorView> {
    match graph.resolution(key_id, request, bundle) {
        Search::Found { root, path, scope } => Ok(
            PathView {
                root,
                end: owner_of(graph.nodes, key_id)->0,
                credentials: path.map_values(|i: int| graph.edges[i]),
                scope,
            },
        ),
        Search::Failed(_) => Err(graph.resolution_error(key_id, request, bundle)),
    }
}

/// The first condition of a list that is among others.
pub open spec fn first_among(conditions: Seq<ConditionView>, others: Seq<ConditionView>) -> Option<
    ConditionView,
>
    decreases conditions.len(),
{
    if conditions.len() == 0 {
        None
    } else {
        match first_among(conditions.drop_last(), others) {
            Some(c) => Some(c),
            None => if others.contains(conditions.last()) {
                Some(conditions.last())
            } else {
                None
            },
        }
    }
}

/// The first condition on a path that was withdrawn from the node that it was
/// granted to, with that node.
pub open spec fn first_withdrawn(
    credentials: Seq<CredentialView>,
    withdrawals: Seq<WithdrawalView>,
    now: Timestamp,
) -> Option<(ConditionView, Seq<char>)>
    decreases credentials.len(),
{
    if credentials.len() == 0 {
        None
    } else {
        match first_withdrawn(credentials.drop_last(), withdrawals, now) {
            Some(x) => Some(x),
            None => match first_among(
                credentials.last().scope.conditions,
                withdrawn_in(withdrawals, credentials.last().child, now),
            ) {
                Some(c) => Some((c, credentials.last().child)),
                None => None,
            },
        }
    }
}

/// The error of a withdrawn condition.
pub open spec fn withdrawn_error(condition: ConditionView, child: Seq<char>) -> ErrorView {
    ErrorView::ScopeViolation(
        "scope condition `"@ + condition.text() + "` granted to "@ + child
            + " was withdrawn in the ledger (CC/SIGNATIF §12 condition withdrawal)"@,
    )
}

/// What evaluating the conditions of a path gives: all of them hold for the
/// act, and none was withdrawn.
pub open spec fn conditions_check(
    path: PathView,
    request: RequestView,
    withdrawals: Seq<WithdrawalView>,
    now: Timestamp,
) -> Result<(), ErrorView> {
    match first_failing(path.scope.conditions, request) {
        Some(i) => Err(
            ErrorView::ScopeConditionFailed { condition: path.scope.conditions[i] },
        ),
        None => match first_withdrawn(path.credentials, withdrawals, now) {
            Some(x) => Err(withdrawn_error(x.0, x.1)),
            None => Ok(()),
        },
    }
}

/// What is known about a signature slot.
#[derive(Debug, PartialEq, Eq)]
pub struct SlotTrust {
    /// The suite.
    pub suite: Suite,
    /// The id of the key.
    pub key_id: KeyId,
    /// Whether the signature verifies, or why not.
    pub crypto: Result<(), String>,
    /// How the key stands.
    pub standing: Standing,
    /// The trust path to the key, or why there is none.
    pub path: Result<TrustPath, String>,
    /// Whether the conditions of the path hold, or why not.
    pub conditions: Result<(), String>,
}

fn cloned_outcome(r: &Result<(), String>) -> (c: Result<(), String>)
    ensures
        c is Ok == r is Ok,
        c matches Err(m) ==> r matches Err(n) && m@ == n@,
{
    match r {
        Ok(()) => Ok(()),
        Err(m) => Err(m.clone()),
    }
}

impl Clone for SlotTrust {
    fn clone(&self) -> SlotTrust {
        SlotTrust {
            suite: self.suite,
            key_id: self.key_id.clone(),
            crypto: cloned_outcome(&self.crypto),
            standing: self.standing.clone(),
            path: match &self.path {
                Ok(p) => Ok(p.clone()),
                Err(m) => Err(m.clone()),
            },
            conditions: cloned_outcome(&self.conditions),
        }
    }
}

/// What is known about a signature slot, as a mathematical value.
#[verifier::ext_equal]
pub struct SlotTrustView {
    /// See [`SlotTrust::suite`].
    pub suite: Suite,
    /// See [`SlotTrust::key_id`].
    pub key_id: Seq<char>,
    /// See [`SlotTrust::crypto`].
    pub crypto: Result<(), Seq<char>>,
    /// See [`SlotTrust::standing`].
    pub standing: StandingView,
    /// See [`SlotTrust::path`].
    pub path: Result<PathView, Seq<char>>,
    /// See [`SlotTrust::conditions`].
    pub conditions: Result<(), Seq<char>>,
}

/// A result with its message as a mathematical value.
pub open spec fn told(r: Result<(), String>) -> Result<(), Seq<char>> {
    match r {
        Ok(_) => Ok(()),
        Err(m) => Err(m@),
    }
}

impl View for SlotTrust {
    type V = SlotTrustView;

    open spec fn view(&self) -> SlotTrustView {
        SlotTrustView {
            suite: self.suite,
            key_id: self.key_id@,
            crypto: told(self.crypto),
            standing: self.standing@,
            path: match self.path {
                Ok(t) => Ok(path_of_trust(t)),
                Err(m) => Err(m@),
            },
            conditions: told(self.conditions),
        }
    }
}

/// The reports of a list as mathematical values.
pub open spec fn trust_views(s: Seq<SlotTrust>) -> Seq<SlotTrustView> {
    s.map_values(|t: SlotTrust| t@)
}

/// Everything that a verifier judges by.
#[verifier::ext_equal]
pub struct VerifierView {
    /// The trust graph.
    pub graph: GraphView,
    /// The anchors.
    pub bundle: AnchorBundle,
    /// The declarations of distrust.
    pub revocations: Seq<RevocationView>,
    /// The withdrawals of conditions.
    pub withdrawals: Seq<WithdrawalView>,
    /// The act that is verified.
    pub request: RequestView,
    /// The policy of acceptance.
    pub policy: AcceptancePolicy,
}

impl VerifierView {
    /// What is known about a slot at a moment, once it is known whether its
    /// signature verifies.
    pub open spec fn slot(
        self,
        slot: SlotView,
        crypto: Result<(), Seq<char>>,
        now: Timestamp,
    ) -> SlotTrustView {
        let path = trust_path(self.graph, slot.key_id, self.request, self.bundle);
        SlotTrustView {
            suite: slot.suite,
            key_id: slot.key_id,
            crypto,
            standing: key_standing_under(self.revocations, slot.key_id, now, None),
            path: match path {
                Ok(p) => Ok(p),
                Err(e) => Err(e.text()),
            },
            conditions: match path {
                Ok(p) => match conditions_check(p, self.request, self.withdrawals, now) {
                    Ok(_) => Ok(()),
                    Err(e) => Err(e.text()),
                },
                Err(e) => Err("no resolved path to evaluate scope conditions: "@ + e.text()),
            },
        }
    }

    /// Whether a plain slot verifies under the graph's keys.
    pub open spec fn slot_crypto(
        self,
        slot: SlotView,
        domain: SigningDomain,
        payload: Seq<u8>,
    ) -> Result<(), Seq<char>> {
        match directory_of(self.graph).lookup(slot.key_id) {
            None => Err("key `"@ + slot.key_id + "` is not registered in the trust graph"@),
            Some(key) => match slot.check(domain, payload, key) {
                Ok(_) => Ok(()),
                Err(e) => Err(e.text()),
            },
        }
    }

    /// Whether a member of a composite verifies under the graph's keys.
    pub open spec fn member_crypto(
        self,
        slot: SlotView,
        domain: SigningDomain,
        payload: Seq<u8>,
    ) -> Result<(), Seq<char>> {
        match slot_verdict(slot, domain, payload, directory_of(self.graph)) {
            SlotVerdictView::Verified { .. } => Ok(()),
            SlotVerdictView::Invalid { why, .. } => Err(why),
            SlotVerdictView::Deferred { detail, .. } => Err(detail),
            SlotVerdictView::UnknownKey { .. } => Err(
                "composite member key `"@ + slot.key_id
                    + "` is not registered in the trust graph"@,
            ),
        }
    }

    /// The reports of the plain slots of a co-signature.
    pub open spec fn plain_slots(self, c: CoSignatureView, now: Timestamp) -> Seq<SlotTrustView> {
        c.slots.map_values(
            |s: SlotView| self.slot(s, self.slot_crypto(s, c.domain, c.payload), now),
        )
    }

    /// The reports of the members of a composite.
    pub open spec fn member_slots(self, c: CompositeView, now: Timestamp) -> Seq<SlotTrustView> {
        c.members.map_values(
            |s: SlotView| self.slot(s, self.member_crypto(s, c.domain, c.payload), now),
        )
    }

    /// The reports of the members of composites, in order.
    pub open spec fn composite_slots(self, s: Seq<CompositeView>, now: Timestamp) -> Seq<
        SlotTrustView,
    >
        decreases s.len(),
    {
        if s.len() == 0 {
            Seq::empty()
        } else {
            self.composite_slots(s.drop_last(), now) + self.member_slots(s.last(), now)
        }
    }

    /// The reports of all slots of a co-signature: the plain ones, then the
    /// members of its composites.
    pub open spec fn slots(self, c: CoSignatureView, now: Timestamp) -> Seq<SlotTrustView> {
        self.plain_slots(c, now) + self.composite_slots(c.composites, now)
    }

    /// The suites that verify under the graph's keys.
    pub open spec fn verified(self, c: CoSignatureView) -> Set<Suite> {
        c.verified_suites(directory_of(self.graph))
    }
}

/// What is known about the signatures of an artifact.
#[derive(Debug, Clone, PartialEq, Eq)]
pub struct TrustReport {
    /// The slots, then the members of the composites.
    pub slots: Vec<SlotTrust>,
    /// What the policy decides.
    pub acceptance: Acceptance,
    /// What the signatures came to.
    pub crypto: CoSignatureReport,
}

/// The verdict on an artifact with what is known about its signatures.
#[derive(Debug, Clone, PartialEq, Eq)]
pub struct SignatifVerdict {
    /// The verdict.
    pub verdict: Verdict,
    /// What is known about the signatures.
    pub trust: TrustReport,
}

/// Whether a slot counts: it verifies, a trust path leads to its key, and the
/// conditions of the path hold.
pub open spec fn slot_counts(s: SlotTrustView) -> bool {
    s.crypto is Ok && s.path is Ok && s.conditions is Ok
}

/// Whether some slot of a list counts.
pub open spec fn some_slot_counts(s: Seq<SlotTrustView>) -> bool {
    exists|i: int| 0 <= i < s.len() && slot_counts(#[trigger] s[i])
}

impl SignatifVerdict {
    /// Whether the artifact is accepted: the policy accepts, some slot counts,
    /// the record does not fail, and the artifact is not void.
    pub open spec fn is_accepted(self) -> bool {
        &&& self.trust.acceptance is Accepted
        &&& some_slot_counts(trust_views(self.trust.slots@))
        &&& !(self.verdict.outcome is Fail)
        &&& !self.verdict.current_state.voids_ab_initio
    }

    /// Which question the verdict answers.
    pub fn reading_answered(&self) -> (r: Reading)
        ensures
            r == self.verdict.reading_answered,
    {
        self.verdict.reading_answered
    }

    /// Whether the artifact is accepted.
    pub fn accepted(&self) -> (r: bool)
        ensures
            r == self.is_accepted(),
    {
        let ghost all = trust_views(self.trust.slots@);
        let mut some = false;
        let mut i: usize = 0;
        while i < self.trust.slots.len()
            invariant
                i <= self.trust.slots.len(),
                all == trust_views(self.trust.slots@),
                some ==> some_slot_counts(all),
                !some ==> forall|k: int| 0 <= k < i ==> !slot_counts(#[trigger] all[k]),
            decreases self.trust.slots.len() - i,
        {
            let s = &self.trust.slots[i];
            assert(all[i as int] == s@);
            if s.crypto.is_ok() && s.path.is_ok() && s.conditions.is_ok() {
                assert(slot_counts(all[i as int]));
                some = true;
            }
            i += 1;
        }
        let failed = match &self.verdict.outcome {
            Outcome::Fail(_) => true,
            _ => false,
        };
        self.trust.acceptance.is_accepted() && some && !failed
            && !self.verdict.current_state.voids_ab_initio
    }

    /// Whether the artifact is void from the start.
    pub fn voids_ab_initio(&self) -> (r: bool)
        ensures
            r == self.verdict.current_state.voids_ab_initio,
    {
        self.verdict.current_state.voids_ab_initio
    }
}

/// What is verified about an artifact.
pub struct VerificationTarget {
    /// The passport.
    pub subject: PassportId,
    /// The co-signature.
    pub co_signature: CoSignature,
    /// The number of its active links.
    pub active_links: usize,
}

/// What the check of the artifact's own record needs from the trust layer.
#[derive(Debug, PartialEq, Eq)]
pub struct RecordInputs {
    /// The slots that have a place on a carrier.
    pub signatures: Vec<SigSlot>,
    /// Whether some signature verified.
    pub attested: bool,
    /// The taints in force.
    pub taints: TaintSet,
}

/// The verifier.
pub struct SignatifVerifier<'a> {
    /// The trust graph.
    pub graph: &'a TrustGraph,
    /// The anchors.
    pub bundle: &'a AnchorBundle,
    /// The ledger of distrust.
    pub ledger: &'a RevocationLedger,
    /// The act that is verified.
    pub request: ScopeRequest,
    /// The policy of acceptance.
    pub policy: AcceptancePolicy,
}

/// The slots among others that have a place on a carrier.
pub open spec fn carried(slots: Seq<SlotView>) -> Seq<SlotView>
    decreases slots.len(),
{
    if slots.len() == 0 {
        Seq::empty()
    } else {
        let front = carried(slots.drop_last());
        if slots.last().suite.carrier() is Some {
            front.push(slots.last())
        } else {
            front
        }
    }
}

/// Whether carrier slots hold slots.
pub open spec fn carries(s: Seq<SigSlot>, slots: Seq<SlotView>) -> bool {
    s.len() == slots.len() && forall|i: int|
        0 <= i < s.len() ==> (#[trigger] s[i]).carries(slots[i])
}

/// Whether some report of a list has a signature that verified.
pub open spec fn any_crypto(s: Seq<SlotTrustView>) -> bool {
    exists|i: int| 0 <= i < s.len() && (#[trigger] s[i]).crypto is Ok
}

fn first_shared(conditions: &Vec<ScopeCondition>, others: &Vec<ScopeCondition>) -> (r: Option<
    usize,
>)
    ensures
        match first_among(condition_views(conditions@), condition_views(others@)) {
            None => r is None,
            Some(c) => r matches Some(i) && i < conditions@.len() && conditions@[i as int]@ == c,
        },
{
    let ghost all = condition_views(conditions@);
    let ghost them = condition_views(others@);
    let mut i: usize = 0;
    assert(all.take(0) =~= Seq::<ConditionView>::empty());
    while i < conditions.len()
        invariant
            i <= conditions.len(),
            all == condition_views(conditions@),
            them == condition_views(others@),
            first_among(all.take(i as int), them) is None,
        decreases conditions.len() - i,
    {
        proof {
            assert(all.take(i + 1).drop_last() =~= all.take(i as int));
            assert(all.take(i + 1).last() == conditions@[i as int]@);
        }
        if crate::scope::find_condition(others, &conditions[i]) {
            proof {
                lemma_first_among(all, them, i + 1);
            }
            return Some(i);
        }
        i += 1;
    }
    assert(all.take(i as int) =~= all);
    None
}

proof fn lemma_first_among(conditions: Seq<ConditionView>, others: Seq<ConditionView>, k: int)
    requires
        0 <= k <= conditions.len(),
        first_among(conditions.take(k), others) is Some,
    ensures
        first_among(conditions, others) == first_among(conditions.take(k), others),
    decreases conditions.len() - k,
{
    if k < conditions.len() {
        assert(conditions.take(k + 1).drop_last() =~= conditions.take(k));
        lemma_first_among(conditions, others, k + 1);
    } else {
        assert(conditions.take(k) =~= conditions);
    }
}

proof fn lemma_first_withdrawn(
    credentials: Seq<CredentialView>,
    withdrawals: Seq<WithdrawalView>,
    now: Timestamp,
    k: int,
)
    requires
        0 <= k <= credentials.len(),
        first_withdrawn(credentials.take(k), withdrawals, now) is Some,
    ensures
        first_withdrawn(credentials, withdrawals, now) == first_withdrawn(
            credentials.take(k),
            withdrawals,
            now,
        ),
    decreases credentials.len() - k,
{
    if k < credentials.len() {
        assert(credentials.take(k + 1).drop_last() =~= credentials.take(k));
        lemma_first_withdrawn(credentials, withdrawals, now, k + 1);
    } else {
        assert(credentials.take(k) =~= credentials);
    }
}

impl<'a> SignatifVerifier<'a> {
    /// What the verifier judges by.
    pub open spec fn spec_view(self) -> VerifierView {
        VerifierView {
            graph: self.graph@,
            bundle: *self.bundle,
            revocations: self.ledger.spec_revocations(),
            withdrawals: self.ledger.spec_withdrawals(),
            request: self.request@,
            policy: self.policy,
        }
    }

    fn evaluate_conditions(&self, path: &TrustPath, now: Timestamp) -> (r: Result<
        (),
        SignatifError,
    >)
        ensures
            crate::outcome(r) == conditions_check(
                path_of_trust(*path),
                self.request@,
                self.ledger.spec_withdrawals(),
                now,
            ),
    {
        if let Some(condition) = path.effective_scope.first_failed_condition(&self.request) {
            return Err(SignatifError::ScopeConditionFailed { condition: condition.clone() });
        }
        let ghost all = credential_views(path.credentials@);
        let ghost withdrawals = self.ledger.spec_withdrawals();
        let mut i: usize = 0;
        assert(all.take(0) =~= Seq::<CredentialView>::empty());
        while i < path.credentials.len()
            invariant
                i <= path.credentials.len(),
                all == credential_views(path.credentials@),
                withdrawals == self.ledger.spec_withdrawals(),
                first_withdrawn(all.take(i as int), withdrawals, now) is None,
                first_failing(path.effective_scope@.conditions, self.request@) is None,
            decreases path.credentials.len() - i,
        {
            let cred = &path.credentials[i];
            proof {
                assert(all.take(i + 1).drop_last() =~= all.take(i as int));
                assert(all.take(i + 1).last() == cred@);
            }
            let withdrawn = self.ledger.withdrawn_conditions_at(&cred.child, now);
            if let Some(k) = first_shared(&cred.scope.conditions, &withdrawn) {
                proof {
                    lemma_first_withdrawn(all, withdrawals, now, i + 1);
                }
                let text = cred.scope.conditions[k].to_string();
                return Err(
                    SignatifError::ScopeViolation(
                        cat5(
                            "scope condition `",
                            text.as_str(),
                            "` granted to ",
                            cred.child.as_str(),
                            " was withdrawn in the ledger (CC/SIGNATIF §12 condition withdrawal)",
                        ),
                    ),
                );
            }
            i += 1;
        }
        assert(all.take(i as int) =~= all);
        Ok(())
    }

    fn slot_trust(&self, slot: &SignatureSlot, crypto: Result<(), String>, now: Timestamp) -> (r:
        SlotTrust)
        ensures
            r@ == self.spec_view().slot(slot@, told(crypto), now),
    {
        let standing = self.ledger.key_standing(&slot.key_id, now);
        match self.graph.resolve(&slot.key_id, &self.request, self.bundle) {
            Ok(p) => {
                assert(trust_path(
                    self.graph@,
                    slot@.key_id,
                    self.request@,
                    *self.bundle,
                ) == Ok::<PathView, ErrorView>(path_of_trust(p)));
                let conditions = match self.evaluate_conditions(&p, now) {
                    Ok(()) => Ok(()),
                    Err(e) => Err(e.to_string()),
                };
                SlotTrust {
                    suite: slot.suite,
                    key_id: slot.key_id.clone(),
                    crypto,
                    standing,
                    path: Ok(p),
                    conditions,
                }
            },
            Err(e) => {
                let why = e.to_string();
                let conditions = Err(
                    cat2("no resolved path to evaluate scope conditions: ", why.as_str()),
                );
                SlotTrust {
                    suite: slot.suite,
                    key_id: slot.key_id.clone(),
                    crypto,
                    standing,
                    path: Err(why),
                    conditions,
                }
            },
        }
    }

    fn plain_crypto(&self, slot: &SignatureSlot, domain: SigningDomain, payload: &[u8]) -> (r:
        Result<(), String>)
        ensures
            told(r) == self.spec_view().slot_crypto(slot@, domain, payload@),
    {
        let dir = self.graph.key_directory();
        assert(dir.lookup(slot@.key_id) == directory_of(self.graph@).lookup(slot@.key_id));
        match dir.resolve(&slot.key_id) {
            None => Err(
                cat3("key `", slot.key_id.as_str(), "` is not registered in the trust graph"),
            ),
            Some(public) => match slot.verify(domain, payload, public) {
                Ok(()) => Ok(()),
                Err(e) => Err(e.to_string()),
            },
        }
    }

    fn composite_crypto(&self, slot: &SignatureSlot, domain: SigningDomain, payload: &[u8]) -> (r:
        Result<(), String>)
        ensures
            told(r) == self.spec_view().member_crypto(slot@, domain, payload@),
    {
        let dir = self.graph.key_directory();
        assert(dir.lookup(slot@.key_id) == directory_of(self.graph@).lookup(slot@.key_id));
        match CoSignature::slot_verdict(slot, domain, payload, &dir) {
            SlotVerdict::Verified { .. } => Ok(()),
            SlotVerdict::Invalid { why, .. } => Err(why),
            SlotVerdict::Deferred { detail, .. } => Err(detail),
            SlotVerdict::UnknownKey { .. } => Err(
                cat3(
                    "composite member key `",
                    slot.key_id.as_str(),
                    "` is not registered in the trust graph",
                ),
            ),
        }
    }

    fn add_members(&self, composite: &CompositeSignature, now: Timestamp, out: &mut Vec<SlotTrust>)
        ensures
            trust_views(final(out)@) == trust_views(old(out)@) + self.spec_view().member_slots(
                composite@,
                now,
            ),
    {
        let ghost start = trust_views(out@);
        let ghost want = self.spec_view().member_slots(composite@, now);
        let mut i: usize = 0;
        assert(start + want.take(0) =~= start);
        while i < composite.members.len()
            invariant
                i <= composite.members.len(),
                want == self.spec_view().member_slots(composite@, now),
                trust_views(out@) == start + want.take(i as int),
            decreases composite.members.len() - i,
        {
            let member = &composite.members[i];
            let crypto = self.composite_crypto(
                member,
                composite.domain,
                composite.payload.as_slice(),
            );
            let ghost before = trust_views(out@);
            let t = self.slot_trust(member, crypto, now);
            assert(want[i as int] == t@);
            out.push(t);
            assert(trust_views(out@) =~= before.push(t@));
            assert(before.push(t@) =~= start + want.take(i + 1));
            i += 1;
        }
        assert(want.take(i as int) =~= want);
    }

    /// The reports of all slots of a co-signature at a moment.
    fn slot_reports(&self, co_signature: &CoSignature, now: Timestamp) -> (r: Vec<SlotTrust>)
        ensures
            trust_views(r@) == self.spec_view().slots(co_signature@, now),
    {
        let ghost plain = self.spec_view().plain_slots(co_signature@, now);
        let mut out: Vec<SlotTrust> = Vec::new();
        let mut i: usize = 0;
        while i < co_signature.slots.len()
            invariant
                i <= co_signature.slots.len(),
                plain == self.spec_view().plain_slots(co_signature@, now),
                trust_views(out@) =~= plain.take(i as int),
            decreases co_signature.slots.len() - i,
        {
            let slot = &co_signature.slots[i];
            let crypto = self.plain_crypto(
                slot,
                co_signature.domain,
                co_signature.payload.as_slice(),
            );
            let ghost before = trust_views(out@);
            let t = self.slot_trust(slot, crypto, now);
            assert(plain[i as int] == t@);
            out.push(t);
            assert(trust_views(out@) =~= before.push(t@));
            i += 1;
        }
        assert(trust_views(out@) =~= plain);
        let ghost all = co_signature@.composites;
        let mut j: usize = 0;
        assert(all.take(0) =~= Seq::<CompositeView>::empty());
        assert(trust_views(out@) =~= plain + self.spec_view().composite_slots(all.take(0), now));
        while j < co_signature.composites.len()
            invariant
                j <= co_signature.composites.len(),
                all == co_signature@.composites,
                trust_views(out@) == plain + self.spec_view().composite_slots(
                    all.take(j as int),
                    now,
                ),
            decreases co_signature.composites.len() - j,
        {
            proof {
                assert(all.take(j + 1).drop_last() =~= all.take(j as int));
                assert(all.take(j + 1).last() == co_signature.composites@[j as int]@);
            }
            self.add_members(&co_signature.composites[j], now, &mut out);
            assert(trust_views(out@) =~= plain + self.spec_view().composite_slots(
                all.take(j + 1),
                now,
            ));
            j += 1;
        }
        assert(all.take(j as int) =~= all);
        out
    }

    /// What the check of the artifact's own record needs from here: the slots
    /// for the carrier, whether any signature verified, and the taints.
    pub fn record_inputs(
        &self,
        target: &VerificationTarget,
        now: Timestamp,
        issuers: &IssuanceIndex,
        provenance: &ProvenanceGraph,
    ) -> (r: RecordInputs)
        ensures
            carries(r.signatures@, carried(target.co_signature@.slots)),
            r.attested == any_crypto(self.spec_view().slots(target.co_signature@, now)),
            r.taints@ == taints_under(
                self.ledger.spec_revocations(),
                target.subject@,
                *issuers,
                *provenance,
                None,
            ),
    {
        let reports = self.slot_reports(&target.co_signature, now);
        let ghost all = trust_views(reports@);
        let mut attested = false;
        let mut i: usize = 0;
        while i < reports.len()
            invariant
                i <= reports.len(),
                all == trust_views(reports@),
                attested ==> any_crypto(all),
                !attested ==> forall|k: int| 0 <= k < i ==> !((#[trigger] all[k]).crypto is Ok),
            decreases reports.len() - i,
        {
            assert(all[i as int] == reports@[i as int]@);
            if reports[i].crypto.is_ok() {
                assert(all[i as int].crypto is Ok);
                attested = true;
            }
            i += 1;
        }
        let ghost slots = target.co_signature@.slots;
        let mut signatures: Vec<SigSlot> = Vec::new();
        let mut j: usize = 0;
        assert(slots.take(0) =~= Seq::<SlotView>::empty());
        while j < target.co_signature.slots.len()
            invariant
                j <= target.co_signature.slots.len(),
                slots == slot_views(target.co_signature.slots@),
                carries(signatures@, carried(slots.take(j as int))),
            decreases target.co_signature.slots.len() - j,
        {
            proof {
                assert(slots.take(j + 1).drop_last() =~= slots.take(j as int));
                assert(slots.take(j + 1).last() == target.co_signature.slots@[j as int]@);
            }
            if let Some(s) = target.co_signature.slots[j].to_sig_slot() {
                signatures.push(s);
            }
            j += 1;
        }
        assert(slots.take(j as int) =~= slots);
        let taints = self.ledger.current_taints(&target.subject, issuers, provenance);
        RecordInputs { signatures, attested, taints }
    }

    /// Verifies an artifact at a moment. `outcome` is what its own record came
    /// to.
    pub fn verify(
        &self,
        target: &VerificationTarget,
        now: Timestamp,
        issuers: &IssuanceIndex,
        provenance: &ProvenanceGraph,
        reading: Reading,
        outcome: Outcome,
    ) -> (r: SignatifVerdict)
        ensures
            r.verdict.reading_answered == reading,
            r.verdict.outcome == outcome,
            r.verdict.current_state.active_links == target.active_links,
            r.verdict.current_state.voids_ab_initio == any_voids(
                taints_under(
                    self.ledger.spec_revocations(),
                    target.subject@,
                    *issuers,
                    *provenance,
                    None,
                ),
            ),
            trust_views(r.trust.slots@) == self.spec_view().slots(target.co_signature@, now),
            r.trust.crypto.verified_suites@ == self.spec_view().verified(target.co_signature@),
            verdict_views(r.trust.crypto.slots@) == slot_verdicts(
                target.co_signature@.slots,
                target.co_signature.domain,
                target.co_signature.payload@,
                directory_of(self.graph@),
            ),
            r.trust.crypto.composites@.len() == target.co_signature@.composites.len(),
            forall|i: int|
                0 <= i < r.trust.crypto.composites@.len() ==> verdict_views(
                    (#[trigger] r.trust.crypto.composites@[i]).members@,
                ) == target.co_signature@.composites[i].verdicts(directory_of(self.graph@)),
            forall|i: int|
                0 <= i < r.trust.crypto.composites@.len() ==> (
                #[trigger] r.trust.crypto.composites@[i]).verified
                    == target.co_signature@.composites[i].holds(directory_of(self.graph@)),
            r.trust.acceptance is Accepted == self.policy.accepts(
                self.spec_view().verified(target.co_signature@),
            ),
            r.trust.acceptance matches Acceptance::Accepted { suites } ==> suites@
                == self.policy.counted(self.spec_view().verified(target.co_signature@)),
            r.trust.acceptance matches Acceptance::Rejected { reason } ==> reason@
                == self.policy.reason(self.spec_view().verified(target.co_signature@)),
    {
        let dir = self.graph.key_directory();
        proof {
            assert forall|id: Seq<char>| #[trigger] dir.lookup(id) == directory_of(
                self.graph@,
            ).lookup(id) by {}
            crate::sign::lemma_verified_suites_agree(
                target.co_signature@,
                dir,
                directory_of(self.graph@),
            );
        }
        let crypto = target.co_signature.verify(&dir);
        proof {
            let composites = target.co_signature@.composites;
            assert forall|i: int| 0 <= i < composites.len() implies (
            #[trigger] composites[i]).verdicts(dir) == composites[i].verdicts(
                directory_of(self.graph@),
            ) && composites[i].holds(dir) == composites[i].holds(directory_of(self.graph@)) by {
                crate::sign::lemma_composite_agrees(composites[i], dir, directory_of(self.graph@));
            }
        }
        let slots = self.slot_reports(&target.co_signature, now);
        let acceptance = self.policy.evaluate(&crypto);
        let taints = self.ledger.current_taints(&target.subject, issuers, provenance);
        let verdict = Verdict {
            reading_answered: reading,
            outcome,
            current_state: CurrentStateReading {
                voids_ab_initio: taints.voids_ab_initio(),
                active_links: target.active_links,
            },
        };
        SignatifVerdict { verdict, trust: TrustReport { slots, acceptance, crypto } }
    }

    /// Verifies an artifact as of a moment, with what could be known then, and
    /// has a notary sign the state that it had. `state_hash` is the state of the
    /// record at that moment, if it had one, and `outcome` what it came to.
    pub fn verify_historical(
        &self,
        subject: &PassportId,
        at: Timestamp,
        state_hash: Option<Hash32>,
        outcome: Outcome,
        issuers: &IssuanceIndex,
        provenance: &ProvenanceGraph,
        notary_key: &KeyPair,
    ) -> (r: Result<HistoricalVerification, SignatifError>)
        ensures
            match state_hash {
                None => r matches Err(e) && e@ == ErrorView::Validation(
                    "log has no state as of "@ + at.text(),
                ),
                Some(hash) => match notary_key.slot(
                    SigningDomain::HistoricalStamp,
                    stamp(subject@, at, hash@),
                ) {
                    None => r matches Err(e) && e@ == signing_error(),
                    Some(_) => r matches Ok(h) && h.subject@ == subject@ && h.as_of == at
                        && h.state_hash == hash && h.verdict.reading_answered
                        == Reading::Evidentiary && h.verdict.outcome == outcome
                        && h.verdict.current_state.active_links == 0
                        && h.verdict.current_state.voids_ab_initio == any_voids(
                        taints_under(
                            self.ledger.spec_revocations(),
                            subject@,
                            *issuers,
                            *provenance,
                            Some(at),
                        ),
                    ) && issued(
                        *notary_key,
                        SigningDomain::HistoricalStamp,
                        stamp(subject@, at, hash@),
                        h.notary@,
                    ),
                },
            },
    {
        let state_hash = match state_hash {
            None => {
                let when = at.to_string();
                return Err(
                    SignatifError::Validation(cat2("log has no state as of ", when.as_str())),
                );
            },
            Some(h) => h,
        };
        let taints = self.ledger.taints_known_at(subject, issuers, provenance, at);
        let verdict = Verdict {
            reading_answered: Reading::Evidentiary,
            outcome,
            current_state: CurrentStateReading {
                voids_ab_initio: taints.voids_ab_initio(),
                active_links: 0,
            },
        };
        let bytes = HistoricalVerification::stamp_bytes(subject, at, &state_hash);
        match SignatureSlot::sign(notary_key, SigningDomain::HistoricalStamp, bytes.as_slice()) {
            Err(e) => Err(e),
            Ok(notary) => Ok(
                HistoricalVerification {
                    subject: subject.clone(),
                    as_of: at,
                    state_hash,
                    verdict,
                    notary,
                },
            ),
        }
    }
}

/// The bytes that a notary signs: which passport had which state when.
pub open spec fn stamp(subject: Seq<char>, as_of: Timestamp, state_hash: Seq<u8>) -> Seq<u8> {
    text_field(subject) + i64_bytes(as_of.secs) + vstd::bytes::spec_u32_to_le_bytes(as_of.nanos)
        + state_hash
}

/// A verification as of a moment, signed by a notary.
#[derive(Debug, Clone, PartialEq, Eq)]
pub struct HistoricalVerification {
    /// The passport.
    pub subject: PassportId,
    /// The moment.
    pub as_of: Timestamp,
    /// The state of the record at that moment.
    pub state_hash: Hash32,
    /// The verdict of a diligent verifier then.
    pub verdict: Verdict,
    /// The notary's signature.
    pub notary: SignatureSlot,
}

/// What became of a verification as of a moment.
#[derive(Debug, Clone, PartialEq, Eq)]
pub enum HistoricalStanding {
    /// Its evidence stands.
    Stands {
        /// Whether the verdict then did not fail.
        evidentiary_pass: bool,
    },
    /// What it certified was voided from the start later on.
    RetroactivelyInvalidated {
        /// The kind of the voiding taint.
        kind: String,
        /// The voiding window.
        window: Option<Interval>,
        /// In words.
        declared_via: String,
    },
}

impl HistoricalStanding {
    /// Whether the conclusion survives.
    pub fn survives(&self) -> (r: bool)
        ensures
            r == (self is Stands),
    {
        match self {
            HistoricalStanding::Stands { .. } => true,
            _ => false,
        }
    }
}

/// The first taint of a list that voids from the start.
pub open spec fn first_voiding(s: Seq<TaintView>) -> Option<TaintView>
    decreases s.len(),
{
    if s.len() == 0 {
        None
    } else {
        match first_voiding(s.drop_last()) {
            Some(t) => Some(t),
            None => if s.last().kind.voids() {
                Some(s.last())
            } else {
                None
            },
        }
    }
}

proof fn lemma_first_voiding(s: Seq<TaintView>)
    ensures
        first_voiding(s) is Some == any_voids(s),
    decreases s.len(),
{
    if s.len() > 0 {
        lemma_first_voiding(s.drop_last());
        if any_voids(s.drop_last()) {
            let i = choose|i: int|
                0 <= i < s.drop_last().len() && (#[trigger] s.drop_last()[i]).kind.voids();
            assert(s[i].kind.voids());
        }
        if any_voids(s) {
            let i = choose|i: int| 0 <= i < s.len() && (#[trigger] s[i]).kind.voids();
            if i < s.len() - 1 {
                assert(s.drop_last()[i].kind.voids());
            }
        }
        if s.last().kind.voids() {
            assert(s[s.len() - 1].kind.voids());
        }
    }
}

impl HistoricalVerification {
    /// The bytes that a notary signs.
    pub fn stamp_bytes(subject: &PassportId, as_of: Timestamp, state_hash: &Hash32) -> (r: Vec<u8>)
        ensures
            r@ == stamp(subject@, as_of, state_hash@),
    {
        let mut w = CanonicalWriter::new();
        w.write_str(subject.as_str());
        w.write_i64(as_of.secs);
        w.write_u32(as_of.nanos);
        w.write_hash(state_hash);
        assert(w@ =~= stamp(subject@, as_of, state_hash@));
        w.into_bytes()
    }

    /// What checking the notary's signature gives.
    pub open spec fn check(self, notary: KeyView) -> Result<(), ErrorView> {
        self.notary@.check(
            SigningDomain::HistoricalStamp,
            stamp(self.subject@, self.as_of, self.state_hash@),
            notary,
        )
    }

    /// Checks the notary's signature.
    pub fn verify_notary(&self, notary_public: &PublicKey) -> (r: Result<(), SignatifError>)
        ensures
            crate::outcome(r) == self.check(notary_public@),
    {
        let bytes = HistoricalVerification::stamp_bytes(
            &self.subject,
            self.as_of,
            &self.state_hash,
        );
        self.notary.verify(SigningDomain::HistoricalStamp, bytes.as_slice(), notary_public)
    }

    /// What became of the verification under the declarations made since: it
    /// stands, unless the passport is void from the start now and could not be
    /// known to be so then.
    pub fn still_stands(
        &self,
        ledger: &RevocationLedger,
        issuers: &IssuanceIndex,
        provenance: &ProvenanceGraph,
    ) -> (r: HistoricalStanding)
        ensures
            ({
                let now = taints_under(
                    ledger.spec_revocations(),
                    self.subject@,
                    *issuers,
                    *provenance,
                    None,
                );
                let known = taints_under(
                    ledger.spec_revocations(),
                    self.subject@,
                    *issuers,
                    *provenance,
                    Some(self.as_of),
                );
                if any_voids(now) && !any_voids(known) {
                    r matches HistoricalStanding::RetroactivelyInvalidated {
                        kind,
                        window,
                        declared_via,
                    } && (first_voiding(now) matches Some(t) && kind@ == t.kind.spec_token()
                        && window == t.window) && declared_via@ == "distrust window covering "@
                        + self.subject@
                } else {
                    r == (HistoricalStanding::Stands {
                        evidentiary_pass: !(self.verdict.outcome is Fail),
                    })
                }
            }),
    {
        let now_taints = ledger.current_taints(&self.subject, issuers, provenance);
        let then_taints = ledger.taints_known_at(&self.subject, issuers, provenance, self.as_of);
        if now_taints.voids_ab_initio() && !then_taints.voids_ab_initio() {
            let entries = now_taints.entries();
            let ghost all = taint_views(entries@);
            let mut i: usize = 0;
            assert(all.take(0) =~= Seq::<TaintView>::empty());
            while i < entries.len() && !entries[i].retroactive()
                invariant
                    i <= entries.len(),
                    all == taint_views(entries@),
                    first_voiding(all.take(i as int)) is None,
                decreases entries.len() - i,
            {
                proof {
                    assert(all.take(i + 1).drop_last() =~= all.take(i as int));
                    assert(all.take(i + 1).last() == entries@[i as int]@);
                }
                i += 1;
            }
            proof {
                lemma_first_voiding(all);
                if i < entries.len() {
                    assert(all.take(i + 1).drop_last() =~= all.take(i as int));
                    assert(all.take(i + 1).last() == entries@[i as int]@);
                    lemma_voiding_prefix(all, i + 1);
                } else {
                    assert(all.take(i as int) =~= all);
                }
            }
            return HistoricalStanding::RetroactivelyInvalidated {
                kind: entries[i].kind.to_string(),
                window: entries[i].window,
                declared_via: cat2("distrust window covering ", self.subject.as_str()),
            };
        }
        let failed = match &self.verdict.outcome {
            Outcome::Fail(_) => true,
            _ => false,
        };
        HistoricalStanding::Stands { evidentiary_pass: !failed }
    }
}

proof fn lemma_voiding_prefix(s: Seq<TaintView>, k: int)
    requires
        0 <= k <= s.len(),
        first_voiding(s.take(k)) is Some,
    ensures
        first_voiding(s) == first_voiding(s.take(k)),
    decreases s.len() - k,
{
    if k < s.len() {
        assert(s.take(k + 1).drop_last() =~= s.take(k));
        lemma_voiding_prefix(s, k + 1);
    } else {
        assert(s.take(k) =~= s);
    }
}

/// The anchor that a signed tree head gives for a record's head: the head
/// itself, if it is proved to be in the tree.
pub fn anchor_from_inclusion(log_head: &Hash32, proof_: &InclusionProof, sth: &SignedTreeHead) -> (r:
    Result<Hash32, SignatifError>)
    ensures
        match inclusion_check(log_head@, *proof_, sth.root@) {
            Ok(_) => r matches Ok(h) && h == *log_head,
            Err(f) => r matches Err(e) && e@ == f,
        },
{
    match crate::anchor::verify_inclusion(log_head, proof_, &sth.root) {
        Err(e) => Err(e),
        Ok(()) => Ok(*log_head),
    }
}

/// What is void from the start is never accepted, however sound its signatures.
pub proof fn void_artifacts_are_never_accepted(v: SignatifVerdict)
    requires
        v.verdict.current_state.voids_ab_initio || v.verdict.outcome is Fail,
    ensures
        !v.is_accepted(),
{
}

/// An accepted artifact has a signature that verifies, whose key a trust path
/// reaches, with all conditions of the path met.
pub proof fn acceptance_rests_on_a_trusted_slot(
    v: SignatifVerdict,
    verifier: VerifierView,
    c: CoSignatureView,
    now: Timestamp,
)
    requires
        v.is_accepted(),
        trust_views(v.trust.slots@) == verifier.slots(c, now),
    ensures
        exists|i: int|
            0 <= i < verifier.slots(c, now).len() && slot_counts(
                #[trigger] verifier.slots(c, now)[i],
            ) && (trust_path(
                verifier.graph,
                verifier.slots(c, now)[i].key_id,
                verifier.request,
                verifier.bundle,
            ) matches Ok(p) && conditions_check(
                p,
                verifier.request,
                verifier.withdrawals,
                now,
            ) is Ok),
{
    let s = verifier.slots(c, now);
    let i = choose|i: int| 0 <= i < s.len() && slot_counts(#[trigger] s[i]);
    let plain = verifier.plain_slots(c, now);
    if i < plain.len() {
        assert(s[i] == plain[i]);
    } else {
        let k = i - plain.len();
        assert(s[i] == verifier.composite_slots(c.composites, now)[k]);
        lemma_member_report(verifier, c.composites, now, k);
    }
}

proof fn lemma_member_report(
    verifier: VerifierView,
    s: Seq<CompositeView>,
    now: Timestamp,
    k: int,
)
    requires
        0 <= k < verifier.composite_slots(s, now).len(),
    ensures
        exists|slot: SlotView, crypto: Result<(), Seq<char>>|
            verifier.composite_slots(s, now)[k] == #[trigger] verifier.slot(slot, crypto, now),
    decreases s.len(),
{
    let front = verifier.composite_slots(s.drop_last(), now);
    if k < front.len() {
        lemma_member_report(verifier, s.drop_last(), now, k);
        assert(verifier.composite_slots(s, now)[k] == front[k]);
    } else {
        let c = s.last();
        let m = c.members[k - front.len()];
        assert(verifier.composite_slots(s, now)[k] == verifier.slot(
            m,
            verifier.member_crypto(m, c.domain, c.payload),
            now,
        ));
    }
}

/// The verification of a moment stands unless something that could not be known
/// then voids the passport from the start: what is declared later and does not
/// act back changes nothing.
pub proof fn later_prospective_declarations_change_nothing(
    revocations: Seq<RevocationView>,
    passport: Seq<char>,
    issuers: IssuanceIndex,
    provenance: ProvenanceGraph,
    as_of: Timestamp,
)
    requires
        forall|i: int|
            0 <= i < revocations.len() ==> (#[trigger] revocations[i]).known(Some(as_of))
                || !revocations[i].reason.taint_kind().voids(),
    ensures
        any_voids(taints_under(revocations, passport, issuers, provenance, None)) == any_voids(
            taints_under(revocations, passport, issuers, provenance, Some(as_of)),
        ),
{
    let now = taints_under(revocations, passport, issuers, provenance, None);
    let known = taints_under(revocations, passport, issuers, provenance, Some(as_of));
    if any_voids(known) {
        let i = choose|i: int| 0 <= i < known.len() && (#[trigger] known[i]).kind.voids();
        let t = known[i];
        assert(known.contains(t));
        knowledge_only_grows(revocations, passport, issuers, provenance, as_of, t);
        assert(now[now.index_of(t)].kind.voids());
    }
    if any_voids(now) {
        let i = choose|i: int| 0 <= i < now.len() && (#[trigger] now[i]).kind.voids();
        let t = now[i];
        assert(now.contains(t));
        taints_cascade(revocations, passport, issuers, provenance, None, t);
        taints_cascade(revocations, passport, issuers, provenance, Some(as_of), t);
        let issued = issuers.issued(t.source);
        if exists|k: int|
            0 <= k < revocations.len() && hits_passport(
                #[trigger] revocations[k],
                t.source,
                issued,
                None,
            ) && t == taint_of(revocations[k], t.source) {
            let k = choose|k: int|
                0 <= k < revocations.len() && hits_passport(
                    #[trigger] revocations[k],
                    t.source,
                    issued,
                    None,
                ) && t == taint_of(revocations[k], t.source);
            assert(hits_passport(revocations[k], t.source, issued, Some(as_of)));
        } else {
            let k = choose|k: int|
                0 <= k < revocations.len() && hits_issuer(#[trigger] revocations[k], issued, None)
                    && t == taint_of(revocations[k], t.source);
            assert(hits_issuer(revocations[k], issued, Some(as_of)));
        }
        assert(known[known.index_of(t)].kind.voids());
    }
}

/// A historical verification that a notary signed passes the check under the
/// notary's key.
pub proof fn notarized_histories_verify(history: HistoricalVerification, notary: KeyPair)
    requires
        issued(
            notary,
            SigningDomain::HistoricalStamp,
            stamp(history.subject@, history.as_of, history.state_hash@),
            history.notary@,
        ),
    ensures
        history.check(notary.spec_public()) is Ok,
{
}

} // verus!
