//! The exchange between a verifier and a custodian: what is asked, and what a
//! policy answers.

use vstd::bytes::{spec_u64_to_le_bytes, u64_to_le_bytes};
use vstd::prelude::*;

use crate::bytes::utf8;
use crate::canon::fields;
use crate::digest::{sha256, sha256_of};
use crate::segments::{PolicyObject, RevealClass};
use crate::sets::{lists, texts};
use crate::sign::{canonical_fields, slice_views};

verus! {

/// Stands for every verifier in a policy.
pub const ANY_VERIFIER: &'static str = "any-verifier";

/// A verifier's question about a segment.
#[derive(Debug, Clone, PartialEq, Eq)]
pub struct S13Request {
    /// Who asks.
    pub verifier: String,
    /// The passport.
    pub subject: String,
    /// The profile under which it is asked.
    pub profile: String,
    /// The segment.
    pub segment: String,
    /// When it is asked.
    pub at: String,
}

impl S13Request {
    /// The canonical bytes.
    pub open spec fn bytes(self) -> Seq<u8> {
        fields(
            seq![
                utf8(self.verifier@),
                utf8(self.subject@),
                utf8(self.profile@),
                utf8(self.segment@),
                utf8(self.at@),
            ],
        )
    }

    /// The digest of the canonical bytes.
    pub open spec fn spec_digest(self) -> Seq<u8> {
        sha256_of(self.bytes())
    }

    /// The canonical bytes.
    pub fn canonical_bytes(&self) -> (r: Vec<u8>)
        ensures
            r@ == self.bytes(),
    {
        let parts: [&[u8]; 5] = [
            self.verifier.as_str().as_bytes(),
            self.subject.as_str().as_bytes(),
            self.profile.as_str().as_bytes(),
            self.segment.as_str().as_bytes(),
            self.at.as_str().as_bytes(),
        ];
        let r = canonical_fields(parts.as_slice());
        assert(slice_views(parts@) =~= seq![
            utf8(self.verifier@),
            utf8(self.subject@),
            utf8(self.profile@),
            utf8(self.segment@),
            utf8(self.at@),
        ]);
        r
    }

    /// The digest of the canonical bytes.
    pub fn digest(&self) -> (r: [u8; 32])
        ensures
            r@ == self.spec_digest(),
    {
        let bytes = self.canonical_bytes();
        sha256(bytes.as_slice()).0
    }
}

/// What a policy answers.
#[derive(Debug, Clone, Copy, PartialEq, Eq, Structural)]
pub enum S13Outcome {
    /// The state is served.
    Permit,
    /// The state is served to a paired reader.
    PermitPaired,
    /// An attestation is offered instead.
    AttestationOffer,
    /// The question is escalated.
    Escalation,
    /// The question is refused.
    Deny,
}

impl S13Outcome {
    /// The token of the outcome.
    pub open spec fn spec_token(self) -> Seq<char> {
        match self {
            S13Outcome::Permit => "permit"@,
            S13Outcome::PermitPaired => "permit-paired"@,
            S13Outcome::AttestationOffer => "attestation-offer"@,
            S13Outcome::Escalation => "escalation"@,
            S13Outcome::Deny => "deny"@,
        }
    }

    /// The token of the outcome.
    pub fn token(self) -> (r: &'static str)
        ensures
            r@ == self.spec_token(),
    {
        match self {
            S13Outcome::Permit => "permit",
            S13Outcome::PermitPaired => "permit-paired",
            S13Outcome::AttestationOffer => "attestation-offer",
            S13Outcome::Escalation => "escalation",
            S13Outcome::Deny => "deny",
        }
    }
}

/// Whether a policy lists a verifier, by name or for all.
pub open spec fn may_ask(policy: PolicyObject, verifier: Seq<char>) -> bool {
    texts(policy.verifiers@).contains(verifier) || texts(policy.verifiers@).contains(
        ANY_VERIFIER@,
    )
}

/// What a policy answers to a verifier: an unlisted one is refused, a listed
/// one is answered as the policy reveals.
pub open spec fn answer(policy: PolicyObject, verifier: Seq<char>) -> S13Outcome {
    if !may_ask(policy, verifier) {
        S13Outcome::Deny
    } else {
        match policy.reveal {
            RevealClass::Open => S13Outcome::Permit,
            RevealClass::PairingGated => S13Outcome::PermitPaired,
            RevealClass::OriginSealed => S13Outcome::AttestationOffer,
            RevealClass::Escrowed => S13Outcome::Escalation,
        }
    }
}

/// A custodian's answer.
#[derive(Debug, Clone, PartialEq, Eq)]
pub struct S13Response {
    /// The digest of the question.
    pub request_digest: [u8; 32],
    /// Who answers.
    pub custodian: String,
    /// The answer.
    pub outcome: S13Outcome,
    /// The policy that was evaluated.
    pub governing_policy: String,
    /// The version of that policy.
    pub governing_policy_version: u64,
}

impl S13Response {
    /// The canonical bytes.
    pub open spec fn bytes(self) -> Seq<u8> {
        fields(
            seq![
                self.request_digest@,
                utf8(self.custodian@),
                utf8(self.outcome.spec_token()),
                utf8(self.governing_policy@),
                spec_u64_to_le_bytes(self.governing_policy_version),
            ],
        )
    }

    /// The digest of the canonical bytes.
    pub open spec fn spec_digest(self) -> Seq<u8> {
        sha256_of(self.bytes())
    }

    /// The digest of the canonical bytes.
    pub fn digest(&self) -> (r: [u8; 32])
        ensures
            r@ == self.spec_digest(),
    {
        let bytes = self.canonical_bytes();
        sha256(bytes.as_slice()).0
    }

    /// The canonical bytes.
    pub fn canonical_bytes(&self) -> (r: Vec<u8>)
        ensures
            r@ == self.bytes(),
    {
        let v = u64_to_le_bytes(self.governing_policy_version);
        let parts: [&[u8]; 5] = [
            self.request_digest.as_slice(),
            self.custodian.as_str().as_bytes(),
            self.outcome.token().as_bytes(),
            self.governing_policy.as_str().as_bytes(),
            v.as_slice(),
        ];
        let r = canonical_fields(parts.as_slice());
        assert(slice_views(parts@) =~= seq![
            self.request_digest@,
            utf8(self.custodian@),
            utf8(self.outcome.spec_token()),
            utf8(self.governing_policy@),
            spec_u64_to_le_bytes(self.governing_policy_version),
        ]);
        r
    }

    /// Evaluates a policy for a question. The answer depends on the question
    /// and the policy's version alone.
    pub fn evaluate(request: &S13Request, policy: &PolicyObject, custodian: &str) -> (r:
        S13Response)
        ensures
            r.request_digest@ == request.spec_digest(),
            r.custodian@ == custodian@,
            r.outcome == answer(*policy, request.verifier@),
            r.governing_policy@ == policy.policy_id@,
            r.governing_policy_version == policy.version,
    {
        let listed = lists(policy.verifiers.as_slice(), request.verifier.as_str()) || lists(
            policy.verifiers.as_slice(),
            ANY_VERIFIER,
        );
        let outcome = if !listed {
            S13Outcome::Deny
        } else {
            match policy.reveal {
                RevealClass::Open => S13Outcome::Permit,
                RevealClass::PairingGated => S13Outcome::PermitPaired,
                RevealClass::OriginSealed => S13Outcome::AttestationOffer,
                RevealClass::Escrowed => S13Outcome::Escalation,
            }
        };
        S13Response {
            request_digest: request.digest(),
            custodian: custodian.to_owned(),
            outcome,
            governing_policy: policy.policy_id.clone(),
            governing_policy_version: policy.version,
        }
    }
}

} // verus!
