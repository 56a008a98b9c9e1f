//! What a receiving profile accepts as evidence: from which services, for which
//! claims, with which quorum, how fresh, and for which elements.

use vstd::prelude::*;

use crate::maps::TextMap;
use crate::sets::{lists, texts};
use crate::sovereign::{ClaimClass, CoverageGrade, SovereignAttestation};
use crate::time::{rfc3339, Timestamp};

verus! {

/// What a profile accepts for an element.
#[derive(Debug, Clone, Copy, PartialEq, Eq, Structural)]
pub enum TruthMode {
    /// Only evidence that the verifier saw.
    RequireDirect,
    /// Attestations of accepted services too.
    AcceptAttestation,
    /// Attestations, and even nothing at all.
    TolerateUnavailable,
}

impl TruthMode {
    /// The token of the mode.
    pub open spec fn spec_token(self) -> Seq<char> {
        match self {
            TruthMode::RequireDirect => "require-direct"@,
            TruthMode::AcceptAttestation => "accept-attestation"@,
            TruthMode::TolerateUnavailable => "tolerate-unavailable"@,
        }
    }

    /// The token of the mode.
    pub fn token(self) -> (r: &'static str)
        ensures
            r@ == self.spec_token(),
    {
        match self {
            TruthMode::RequireDirect => "require-direct",
            TruthMode::AcceptAttestation => "accept-attestation",
            TruthMode::TolerateUnavailable => "tolerate-unavailable",
        }
    }

    fn admits_attestation(self) -> (r: bool)
        ensures
            r == (self != TruthMode::RequireDirect),
    {
        match self {
            TruthMode::AcceptAttestation | TruthMode::TolerateUnavailable => true,
            TruthMode::RequireDirect => false,
        }
    }
}

/// What a receiving profile accepts.
#[derive(Debug, Clone, PartialEq, Eq)]
pub struct AcceptancePolicy {
    /// The profile.
    pub profile: String,
    /// The services that it accepts.
    pub attestation_services: Vec<String>,
    /// The claims that it accepts.
    pub accepted_claims: Vec<ClaimClass>,
    /// The least threshold of a quorum for claims with high stakes.
    pub minimum_quorum: usize,
    /// The greatest age of an attestation in seconds.
    pub max_age_secs: Option<i64>,
    /// The modes of single elements.
    pub element_modes: TextMap<TruthMode>,
}

/// Whether an attestation made at one moment is fresh enough at another: both
/// are moments, and the first is not after the second and not too old.
pub open spec fn fresh_enough(max_age: Option<i64>, now: Seq<char>, as_of: Seq<char>) -> bool {
    match max_age {
        None => true,
        Some(max) => match (rfc3339(now), rfc3339(as_of)) {
            (Some(n), Some(a)) => 0 <= n.spec_secs_since(a) <= max,
            _ => false,
        },
    }
}

impl AcceptancePolicy {
    /// The mode of an element: the declared one, else attestations are
    /// accepted.
    pub open spec fn mode(self, element: Seq<char>) -> TruthMode {
        match self.element_modes.at(element) {
            Some(m) => m,
            None => TruthMode::AcceptAttestation,
        }
    }

    /// Whether the policy counts an attestation as evidence for an element.
    pub open spec fn admits(
        self,
        attestation: SovereignAttestation,
        element: Seq<char>,
        now: Seq<char>,
    ) -> bool {
        &&& self.mode(element) != TruthMode::RequireDirect
        &&& texts(self.attestation_services@).contains(attestation.service@)
        &&& self.accepted_claims@.contains(attestation.statement.claim)
        &&& attestation.statement.claim == ClaimClass::Conformity ==> self.minimum_quorum <= (
        match attestation.quorum {
            Some(q) => q.threshold as int,
            None => 0int,
        })
        &&& fresh_enough(self.max_age_secs, now, attestation.statement.as_of@)
    }

    /// The mode of an element.
    pub fn mode_for(&self, element: &str) -> (r: TruthMode)
        ensures
            r == self.mode(element@),
    {
        match self.element_modes.get(element) {
            Some(m) => *m,
            None => TruthMode::AcceptAttestation,
        }
    }

    fn accepts_claim(&self, claim: ClaimClass) -> (r: bool)
        ensures
            r == self.accepted_claims@.contains(claim),
    {
        let mut i: usize = 0;
        while i < self.accepted_claims.len()
            invariant
                i <= self.accepted_claims.len(),
                forall|k: int| 0 <= k < i ==> #[trigger] self.accepted_claims@[k] != claim,
            decreases self.accepted_claims.len() - i,
        {
            if self.accepted_claims[i] == claim {
                return true;
            }
            i += 1;
        }
        false
    }

    /// Grades an attestation as evidence for an element at a moment: it is
    /// attested if the policy counts it, and unavailable otherwise.
    pub fn grade(&self, attestation: &SovereignAttestation, element: &str, now: &str) -> (r:
        CoverageGrade)
        ensures
            r == (if self.admits(*attestation, element@, now@) {
                CoverageGrade::AttestedByAuthority
            } else {
                CoverageGrade::ExplicitlyUnavailable
            }),
    {
        if !self.mode_for(element).admits_attestation() {
            return CoverageGrade::ExplicitlyUnavailable;
        }
        if !lists(self.attestation_services.as_slice(), attestation.service.as_str()) {
            return CoverageGrade::ExplicitlyUnavailable;
        }
        if !self.accepts_claim(attestation.statement.claim) {
            return CoverageGrade::ExplicitlyUnavailable;
        }
        if attestation.statement.claim.high_stakes() {
            let threshold: usize = match &attestation.quorum {
                Some(q) => q.threshold,
                None => 0,
            };
            if threshold < self.minimum_quorum {
                return CoverageGrade::ExplicitlyUnavailable;
            }
        }
        if let Some(max_age) = self.max_age_secs {
            let age = match (
                Timestamp::parse(now),
                Timestamp::parse(attestation.statement.as_of.as_str()),
            ) {
                (Some(n), Some(a)) => n.signed_secs_since(a),
                _ => {
                    return CoverageGrade::ExplicitlyUnavailable;
                },
            };
            if age < 0 || age > max_age {
                return CoverageGrade::ExplicitlyUnavailable;
            }
        }
        CoverageGrade::AttestedByAuthority
    }
}

/// A stricter policy admits no more: with fewer services and claims, a greater
/// quorum, a shorter age and modes that admit no more, whatever it admits the
/// other admits.
pub proof fn stricter_policies_admit_less(
    strict: AcceptancePolicy,
    lax: AcceptancePolicy,
    attestation: SovereignAttestation,
    element: Seq<char>,
    now: Seq<char>,
)
    requires
        strict.admits(attestation, element, now),
        lax.mode(element) != TruthMode::RequireDirect || strict.mode(element)
            == TruthMode::RequireDirect,
        texts(strict.attestation_services@).to_set().subset_of(
            texts(lax.attestation_services@).to_set(),
        ),
        strict.accepted_claims@.to_set().subset_of(lax.accepted_claims@.to_set()),
        lax.minimum_quorum <= strict.minimum_quorum,
        lax.max_age_secs matches Some(l) ==> (strict.max_age_secs matches Some(s) && s <= l),
    ensures
        lax.admits(attestation, element, now),
{
    assert(texts(strict.attestation_services@).to_set().contains(attestation.service@));
    assert(strict.accepted_claims@.to_set().contains(attestation.statement.claim));
    assert(texts(lax.attestation_services@).to_set().contains(attestation.service@));
    assert(lax.accepted_claims@.to_set().contains(attestation.statement.claim));
}

} // verus!
