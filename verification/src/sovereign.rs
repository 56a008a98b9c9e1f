//! Sovereign attestations: signed statements about sealed segments, for
//! verifiers that cannot see into them. Claims with high stakes need a quorum's
//! signatures too.

use vstd::bytes::{spec_u64_to_le_bytes, u64_to_le_bytes};
use vstd::prelude::*;

use crate::bytes::utf8;
use crate::canon::fields;
use crate::digest::{sha256, sha256_of};
use crate::graph::{directory_of, GraphView, NodeId, TrustGraph};
use crate::keyring::KeyPair;
use crate::revoke::{quorum_bytes, QuorumAttestation, QuorumView};
use crate::segments::PolicyObject;
use crate::sign::{
    canonical_fields, member_slots, signing_error, slice_views, SignatureSlot, SigningDomain,
};
use crate::signer::{all_issued, check_signer, issued, registered, signer_check};
use crate::text::{cat3, same_text};
use crate::{ErrorView, SignatifError};

verus! {

/// What an attestation claims.
#[derive(Debug, Clone, Copy, PartialEq, Eq, Structural)]
pub enum ClaimClass {
    /// The state conforms to the governing profile.
    Conformity,
    /// The state's commitment is the stated one.
    CommitmentHash,
    /// The last commitment is fresh enough.
    Freshness,
}

impl ClaimClass {
    /// The token of the class.
    pub open spec fn spec_token(self) -> Seq<char> {
        match self {
            ClaimClass::Conformity => "conformity"@,
            ClaimClass::CommitmentHash => "commitment-hash"@,
            ClaimClass::Freshness => "freshness"@,
        }
    }

    /// The token of the class.
    pub fn token(self) -> (r: &'static str)
        ensures
            r@ == self.spec_token(),
    {
        match self {
            ClaimClass::Conformity => "conformity",
            ClaimClass::CommitmentHash => "commitment-hash",
            ClaimClass::Freshness => "freshness",
        }
    }

    /// Whether the claim needs a quorum.
    pub fn high_stakes(self) -> (r: bool)
        ensures
            r == (self == ClaimClass::Conformity),
    {
        match self {
            ClaimClass::Conformity => true,
            _ => false,
        }
    }
}

/// A statement about a sealed segment.
#[derive(Debug, Clone, PartialEq, Eq)]
pub struct AttestationStatement {
    /// The segment.
    pub segment: String,
    /// The commitment to its state.
    pub state_commitment: [u8; 32],
    /// What is claimed.
    pub claim: ClaimClass,
    /// The value of the claim.
    pub value: String,
    /// The moment that it speaks of, in RFC 3339.
    pub as_of: String,
    /// The policy that governs the segment.
    pub governing_policy: String,
    /// The version of that policy.
    pub governing_policy_version: u64,
    /// The passport.
    pub subject: String,
}

impl AttestationStatement {
    /// The canonical bytes.
    pub open spec fn bytes(self) -> Seq<u8> {
        fields(
            seq![
                utf8(self.segment@),
                self.state_commitment@,
                utf8(self.claim.spec_token()),
                utf8(self.value@),
                utf8(self.as_of@),
                utf8(self.governing_policy@),
                spec_u64_to_le_bytes(self.governing_policy_version),
                utf8(self.subject@),
            ],
        )
    }

    /// The canonical bytes.
    pub fn canonical_bytes(&self) -> (r: Vec<u8>)
        ensures
            r@ == self.bytes(),
    {
        let v = u64_to_le_bytes(self.governing_policy_version);
        let parts: [&[u8]; 8] = [
            self.segment.as_str().as_bytes(),
            self.state_commitment.as_slice(),
            self.claim.token().as_bytes(),
            self.value.as_str().as_bytes(),
            self.as_of.as_str().as_bytes(),
            self.governing_policy.as_str().as_bytes(),
            v.as_slice(),
            self.subject.as_str().as_bytes(),
        ];
        let r = canonical_fields(parts.as_slice());
        assert(slice_views(parts@) =~= seq![
            utf8(self.segment@),
            self.state_commitment@,
            utf8(self.claim.spec_token()),
            utf8(self.value@),
            utf8(self.as_of@),
            utf8(self.governing_policy@),
            spec_u64_to_le_bytes(self.governing_policy_version),
            utf8(self.subject@),
        ]);
        r
    }

    /// The digest of the canonical bytes.
    pub fn digest(&self) -> (r: [u8; 32])
        ensures
            r@ == sha256_of(self.bytes()),
    {
        let bytes = self.canonical_bytes();
        sha256(bytes.as_slice()).0
    }
}

/// A statement with the service's signature and, for high stakes, a quorum's.
#[derive(Debug, Clone, PartialEq, Eq)]
pub struct SovereignAttestation {
    /// The statement.
    pub statement: AttestationStatement,
    /// The service.
    pub service: String,
    /// The service's signature.
    pub signature: SignatureSlot,
    /// The quorum's attestation.
    pub quorum: Option<QuorumAttestation>,
}

/// How a data point is covered.
#[derive(Debug, Clone, Copy, PartialEq, Eq, Structural)]
pub enum CoverageGrade {
    /// The verifier saw the evidence.
    VerifiedDirect,
    /// An authority attests it.
    AttestedByAuthority,
    /// There is no admissible evidence.
    ExplicitlyUnavailable,
}

impl CoverageGrade {
    /// The token of the grade.
    pub open spec fn spec_token(self) -> Seq<char> {
        match self {
            CoverageGrade::VerifiedDirect => "verified-direct"@,
            CoverageGrade::AttestedByAuthority => "attested-by-authority"@,
            CoverageGrade::ExplicitlyUnavailable => "explicitly-unavailable"@,
        }
    }

    /// The token of the grade.
    pub fn token(self) -> (r: &'static str)
        ensures
            r@ == self.spec_token(),
    {
        match self {
            CoverageGrade::VerifiedDirect => "verified-direct",
            CoverageGrade::AttestedByAuthority => "attested-by-authority",
            CoverageGrade::ExplicitlyUnavailable => "explicitly-unavailable",
        }
    }
}

/// The error of a claim with high stakes that is issued without a quorum.
pub open spec fn quorum_missing() -> ErrorView {
    ErrorView::Validation(
        "high-stakes claims require the sovereign service's quorum co-signature"@,
    )
}

/// The quorum attestation that is issued with a statement: none for low
/// stakes, and for high stakes the members' signatures.
pub open spec fn issued_quorum(
    statement: AttestationStatement,
    quorum: Option<(&NodeId, usize, &[&KeyPair])>,
) -> Result<Option<QuorumView>, ErrorView> {
    if statement.claim != ClaimClass::Conformity {
        Ok(None)
    } else {
        match quorum {
            None => Err(quorum_missing()),
            Some(q) => match member_slots(
                q.2@,
                SigningDomain::Quorum,
                quorum_bytes(statement.bytes(), q.0@, q.1),
            ) {
                None => Err(signing_error()),
                Some(signatures) => Ok(
                    Some(QuorumView { quorum: q.0@, threshold: q.1, signatures }),
                ),
            },
        }
    }
}

/// An optional quorum attestation as a mathematical value.
pub open spec fn quorum_view(q: Option<QuorumAttestation>) -> Option<QuorumView> {
    match q {
        Some(a) => Some(a@),
        None => None,
    }
}

impl SovereignAttestation {
    /// What checking the service's signature gives.
    pub open spec fn signature_check(self, graph: GraphView) -> Result<Seq<char>, ErrorView> {
        signer_check(
            graph,
            self.service@,
            "attestation service: "@,
            "attestation service `"@ + self.service@ + "` has no such key"@,
            self.signature@,
            SigningDomain::SovereignAttestation,
            self.statement.bytes(),
        )
    }

    /// What checking the attestation gives.
    pub open spec fn check(self, graph: GraphView) -> Result<CoverageGrade, ErrorView> {
        match self.signature_check(graph) {
            Err(e) => Err(e),
            Ok(_) => if self.statement.claim != ClaimClass::Conformity {
                Ok(CoverageGrade::AttestedByAuthority)
            } else {
                match self.quorum {
                    None => Err(
                        ErrorView::Crypto(
                            "claim `"@ + self.statement.claim.spec_token()
                                + "` is high-stakes: the quorum co-signature is required"@,
                        ),
                    ),
                    Some(q) => if q@.quorate(self.statement.bytes(), directory_of(graph)) {
                        Ok(CoverageGrade::AttestedByAuthority)
                    } else {
                        Err(
                            ErrorView::Crypto(
                                "high-stakes claim `"@ + self.statement.claim.spec_token()
                                    + "`: the quorum co-signature does not reach its threshold"@,
                            ),
                        )
                    },
                }
            },
        }
    }

    /// The service signs a statement; a claim with high stakes is signed by the
    /// quorum too.
    pub fn issue(
        statement: AttestationStatement,
        service: &str,
        key: &KeyPair,
        quorum: Option<(&NodeId, usize, &[&KeyPair])>,
    ) -> (r: Result<SovereignAttestation, SignatifError>)
        ensures
            match (
                key.slot(SigningDomain::SovereignAttestation, statement.bytes()),
                issued_quorum(statement, quorum),
            ) {
                (None, _) => r matches Err(e) && e@ == signing_error(),
                (Some(_), Err(f)) => r matches Err(e) && e@ == f,
                (Some(_), Ok(q)) => r matches Ok(a) && a.statement == statement && a.service@
                    == service@ && quorum_view(a.quorum) == q && issued(
                    *key,
                    SigningDomain::SovereignAttestation,
                    statement.bytes(),
                    a.signature@,
                ) && (q matches Some(x) ==> all_issued(
                    (quorum->0).2@,
                    SigningDomain::Quorum,
                    quorum_bytes(statement.bytes(), x.quorum, x.threshold),
                    x.signatures,
                )),
            },
    {
        let payload = statement.canonical_bytes();
        let signature = match SignatureSlot::sign(
            key,
            SigningDomain::SovereignAttestation,
            payload.as_slice(),
        ) {
            Err(e) => {
                return Err(e);
            },
            Ok(s) => s,
        };
        let attested: Option<QuorumAttestation> = if statement.claim.high_stakes() {
            match quorum {
                None => {
                    return Err(
                        SignatifError::invalid(
                            "high-stakes claims require the sovereign service's quorum co-signature",
                        ),
                    );
                },
                Some(q) => match QuorumAttestation::mint_sign(q.0, q.1, payload.as_slice(), q.2) {
                    Err(e) => {
                        return Err(e);
                    },
                    Ok(a) => Some(a),
                },
            }
        } else {
            None
        };
        Ok(
            SovereignAttestation {
                statement,
                service: service.to_owned(),
                signature,
                quorum: attested,
            },
        )
    }

    /// Checks the attestation under the verifier's own graph.
    pub fn verify(&self, graph: &TrustGraph) -> (r: Result<CoverageGrade, SignatifError>)
        ensures
            crate::outcome(r) == self.check(graph@),
    {
        let missing = cat3("attestation service `", self.service.as_str(), "` has no such key");
        let payload = self.statement.canonical_bytes();
        if let Err(e) = check_signer(
            graph,
            self.service.as_str(),
            "attestation service: ",
            missing.as_str(),
            &self.signature,
            SigningDomain::SovereignAttestation,
            payload.as_slice(),
        ) {
            return Err(e);
        }
        if self.statement.claim.high_stakes() {
            match &self.quorum {
                None => {
                    return Err(
                        SignatifError::Crypto(
                            cat3(
                                "claim `",
                                self.statement.claim.token(),
                                "` is high-stakes: the quorum co-signature is required",
                            ),
                        ),
                    );
                },
                Some(q) => {
                    let keys = graph.key_directory();
                    proof {
                        crate::revoke::lemma_verifying_keys_agree(
                            q@.signatures,
                            quorum_bytes(payload@, q@.quorum, q@.threshold),
                            keys,
                            directory_of(graph@),
                        );
                    }
                    let quorate = match q.is_quorate(payload.as_slice(), &keys) {
                        Ok(b) => b,
                        Err(_) => false,
                    };
                    if !quorate {
                        return Err(
                            SignatifError::Crypto(
                                cat3(
                                    "high-stakes claim `",
                                    self.statement.claim.token(),
                                    "`: the quorum co-signature does not reach its threshold",
                                ),
                            ),
                        );
                    }
                },
            }
        }
        Ok(CoverageGrade::AttestedByAuthority)
    }

    /// Whether the attestation names a policy in its version.
    pub open spec fn binds(self, policy: PolicyObject) -> bool {
        self.statement.governing_policy@ == policy.policy_id@
            && self.statement.governing_policy_version == policy.version
    }

    /// Whether the attestation names a policy in its version.
    pub fn binds_policy(&self, policy: &PolicyObject) -> (r: bool)
        ensures
            r == self.binds(*policy),
    {
        same_text(self.statement.governing_policy.as_str(), policy.policy_id.as_str())
            && self.statement.governing_policy_version == policy.version
    }
}

/// What a registered service issued is accepted; a claim with high stakes
/// needs in addition a quorum that reaches its threshold.
pub proof fn issued_attestations_verify(
    attestation: SovereignAttestation,
    key: KeyPair,
    graph: GraphView,
)
    requires
        issued(
            key,
            SigningDomain::SovereignAttestation,
            attestation.statement.bytes(),
            attestation.signature@,
        ),
        registered(graph, attestation.service@, key),
        attestation.statement.claim == ClaimClass::Conformity ==> (attestation.quorum matches Some(
            q,
        ) && q@.quorate(attestation.statement.bytes(), directory_of(graph))),
    ensures
        attestation.check(graph) == Ok::<CoverageGrade, ErrorView>(
            CoverageGrade::AttestedByAuthority,
        ),
{
}

/// No claim with high stakes is accepted without a quorum that signed it.
pub proof fn high_stakes_need_a_quorum(attestation: SovereignAttestation, graph: GraphView)
    requires
        attestation.statement.claim == ClaimClass::Conformity,
        attestation.check(graph) is Ok,
    ensures
        attestation.quorum matches Some(q) && q@.quorate(
            attestation.statement.bytes(),
            directory_of(graph),
        ),
{
}

} // verus!
