//! Signed policies and spines: a policy is signed by its authority, a spine by
//! its custodian, and either counts only under a key that is registered to the
//! node that it names.

use vstd::prelude::*;

use crate::graph::{GraphView, NodeId, TrustGraph};
use crate::keyring::KeyPair;
use crate::sign::{signing_error, SignatureSlot, SigningDomain};
use crate::signer::{check_signer, issued, registered, signer_check};
use crate::text::{cat3, cat5};
use crate::{ErrorView, SignatifError};

pub use crate::segments::{PolicyObject, PolicyRef, PolicyVerdict, Spine};

verus! {

/// A policy and its authority's signature.
#[derive(Debug, Clone, PartialEq, Eq)]
pub struct SignedPolicy {
    /// The policy.
    pub policy: PolicyObject,
    /// The authority's signature.
    pub signature: SignatureSlot,
}

/// What checking a policy gives.
#[derive(Debug, Clone, PartialEq, Eq)]
pub struct PolicyCheck {
    /// The authority.
    pub signer: NodeId,
    /// Whether the signature verified.
    pub signature_ok: bool,
    /// Whether the policy is in force.
    pub fresh: PolicyVerdict,
}

impl SignedPolicy {
    /// What checking the policy's signature gives: its authority, or the error.
    pub open spec fn check(self, graph: GraphView) -> Result<Seq<char>, ErrorView> {
        signer_check(
            graph,
            self.policy.authority@,
            "policy authority: "@,
            "policy `"@ + self.policy.policy_id@ + "` references authority `"@
                + self.policy.authority@ + "` with no such key"@,
            self.signature@,
            SigningDomain::SegmentPolicy,
            self.policy.bytes(),
        )
    }

    /// The authority signs a policy.
    pub fn issue(policy: PolicyObject, key: &KeyPair) -> (r: Result<SignedPolicy, SignatifError>)
        ensures
            r is Ok == key.slot(SigningDomain::SegmentPolicy, policy.bytes()) is Some,
            r matches Ok(s) ==> s.policy == policy && issued(
                *key,
                SigningDomain::SegmentPolicy,
                policy.bytes(),
                s.signature@,
            ),
            r matches Err(e) ==> e@ == signing_error(),
    {
        let bytes = policy.canonical_bytes();
        match SignatureSlot::sign(key, SigningDomain::SegmentPolicy, bytes.as_slice()) {
            Err(e) => Err(e),
            Ok(signature) => Ok(SignedPolicy { policy, signature }),
        }
    }

    /// Checks the signature under the authority's registered key, and says
    /// whether the policy is in force: a superseded policy verifies, and is
    /// stale.
    pub fn verify(&self, graph: &TrustGraph) -> (r: Result<PolicyCheck, SignatifError>)
        ensures
            match self.check(graph@) {
                Ok(id) => r matches Ok(c) && c.signer@ == id && c.signature_ok && c.fresh
                    == self.policy.standing(self.policy.policy_id@, self.policy.version),
                Err(f) => r matches Err(e) && e@ == f,
            },
    {
        let missing = cat5(
            "policy `",
            self.policy.policy_id.as_str(),
            "` references authority `",
            self.policy.authority.as_str(),
            "` with no such key",
        );
        let bytes = self.policy.canonical_bytes();
        match check_signer(
            graph,
            self.policy.authority.as_str(),
            "policy authority: ",
            missing.as_str(),
            &self.signature,
            SigningDomain::SegmentPolicy,
            bytes.as_slice(),
        ) {
            Err(e) => Err(e),
            Ok(signer) => {
                let referenced = PolicyRef {
                    policy_id: self.policy.policy_id.clone(),
                    version: self.policy.version,
                };
                let fresh = self.policy.status_for(&referenced);
                Ok(PolicyCheck { signer, signature_ok: true, fresh })
            },
        }
    }

    /// Checks the signature, and says whether the policy is in force: a
    /// superseded policy verifies, and is stale.
    pub fn verify_with_freshness(&self, graph: &TrustGraph) -> (r: Result<
        PolicyCheck,
        SignatifError,
    >)
        ensures
            match self.check(graph@) {
                Ok(id) => r matches Ok(c) && c.signer@ == id && c.signature_ok && c.fresh
                    == self.policy.standing(self.policy.policy_id@, self.policy.version),
                Err(f) => r matches Err(e) && e@ == f,
            },
    {
        self.verify(graph)
    }
}

/// A spine and its custodian's signature.
#[derive(Debug, Clone, PartialEq, Eq)]
pub struct SignedSpine {
    /// The spine.
    pub spine: Spine,
    /// The custodian.
    pub custodian: String,
    /// The custodian's signature over the spine's digest.
    pub signature: SignatureSlot,
}

impl SignedSpine {
    /// What checking the spine's signature gives: its custodian, or the error.
    pub open spec fn check(self, graph: GraphView) -> Result<Seq<char>, ErrorView> {
        signer_check(
            graph,
            self.custodian@,
            "spine custodian: "@,
            "spine custodian `"@ + self.custodian@ + "` has no such key"@,
            self.signature@,
            SigningDomain::SpineRoot,
            self.spine.spec_digest(),
        )
    }

    /// The custodian signs a spine.
    pub fn issue(spine: Spine, custodian: &str, key: &KeyPair) -> (r: Result<
        SignedSpine,
        SignatifError,
    >)
        ensures
            r is Ok == key.slot(SigningDomain::SpineRoot, spine.spec_digest()) is Some,
            r matches Ok(s) ==> s.spine == spine && s.custodian@ == custodian@ && issued(
                *key,
                SigningDomain::SpineRoot,
                spine.spec_digest(),
                s.signature@,
            ),
            r matches Err(e) ==> e@ == signing_error(),
    {
        let digest = spine.digest();
        match SignatureSlot::sign(key, SigningDomain::SpineRoot, digest.as_slice()) {
            Err(e) => Err(e),
            Ok(signature) => Ok(SignedSpine { spine, custodian: custodian.to_owned(), signature }),
        }
    }

    /// Checks the signature under the custodian's registered key.
    pub fn verify(&self, graph: &TrustGraph) -> (r: Result<(), SignatifError>)
        ensures
            match self.check(graph@) {
                Ok(_) => r is Ok,
                Err(f) => r matches Err(e) && e@ == f,
            },
    {
        let missing = cat3("spine custodian `", self.custodian.as_str(), "` has no such key");
        let digest = self.spine.digest();
        match check_signer(
            graph,
            self.custodian.as_str(),
            "spine custodian: ",
            missing.as_str(),
            &self.signature,
            SigningDomain::SpineRoot,
            digest.as_slice(),
        ) {
            Err(e) => Err(e),
            Ok(_) => Ok(()),
        }
    }
}

/// A superseded policy is stale by its own record, and an unsuperseded one is
/// in force.
pub proof fn supersession_makes_stale(policy: PolicyObject)
    ensures
        policy.superseded_by is None ==> policy.standing(policy.policy_id@, policy.version)
            == PolicyVerdict::Current,
        policy.superseded_by matches Some(v) && v > policy.version ==> policy.standing(
            policy.policy_id@,
            policy.version,
        ) == (PolicyVerdict::Stale { have: policy.version, current: policy.superseded_by->0 }),
{
}

/// A policy that its authority issued verifies wherever the authority's key is
/// registered.
pub proof fn issued_policies_verify(s: SignedPolicy, key: KeyPair, graph: GraphView)
    requires
        issued(key, SigningDomain::SegmentPolicy, s.policy.bytes(), s.signature@),
        registered(graph, s.policy.authority@, key),
    ensures
        s.check(graph) is Ok,
{
}

/// A spine that its custodian issued verifies wherever the custodian's key is
/// registered.
pub proof fn issued_spines_verify(s: SignedSpine, key: KeyPair, graph: GraphView)
    requires
        issued(key, SigningDomain::SpineRoot, s.spine.spec_digest(), s.signature@),
        registered(graph, s.custodian@, key),
    ensures
        s.check(graph) is Ok,
{
}

} // verus!
