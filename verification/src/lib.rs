//! Trust layer for digital product passports.
//!
//! The library turns framed signatures into trust decisions: who delegated
//! what to whom and under which scope ([`graph`], [`scope`]), which signatures
//! verify and which of them a policy accepts ([`sign`]), what was revoked and
//! since when ([`revoke`]), what a transparency log committed to ([`anchor`]),
//! and what a verifier may conclude from all of it ([`verify`]).
//!
//! Contracts are stated over mathematical models: texts are `Seq<char>`, byte
//! strings are `Seq<u8>`, and each type with private parts has a view.
#![allow(unused_imports)]

use vstd::prelude::*;

pub mod acceptance;
pub mod accreditation;
pub mod anchor;
pub mod bytes;
pub mod canon;
pub mod ceremony;
pub mod confium;
pub mod curve;
pub mod declaration;
pub mod device;
pub mod digest;
pub mod dossier;
pub mod envelope;
pub mod exchange;
pub mod frozen;
pub mod graph;
pub mod grid;
pub mod hierarchy;
pub mod json;
pub mod keyring;
pub mod lagrange;
pub mod laws;
pub mod lineage;
pub mod manifest;
pub mod maps;
pub mod merkle;
pub mod party;
pub mod provenance;
pub mod revoke;
pub mod rollup;
pub mod s13;
pub mod scheme;
pub mod scope;
pub mod segments;
pub mod sets;
pub mod sign;
pub mod signed_profile;
pub mod signer;
pub mod sovereign;
pub mod spine_anchor;
pub mod taint;
pub mod text;
pub mod threshold;
pub mod time;
pub mod transport;
pub mod verify;

pub use anchor::{
    external_anchor_payload, verify_consistency, verify_external_anchor, verify_inclusion,
    ConsistencyProof, ExternalAnchor, ExternalAnchorMethod, InclusionProof, LogEntry, LogOfLogs,
    ProofNode, Side, SignedTreeHead, TransparencyLog,
};
pub use graph::{
    AnchorBundle, DelegationCredential, DelegationNode, KeyDirectory, MasterList, MasterListEntry,
    NodeId, NodeKind, RegisteredKey, TrustGraph, TrustList, TrustListEntry, TrustPath,
    WitnessAttestation,
};
pub use keyring::{KeyId, KeyPair, PublicKey};
pub use manifest::{AlgorithmStatus, DeploymentManifest, MigrationPhase, TopologyProfile};
pub use revoke::{
    IssuanceIndex, QuorumAttestation, Revocation, RevocationLedger, RevocationReason,
    RevokedSubject, Standing,
};
pub use scope::{DelegationScope, LayerConstraint, ScopeCondition, ScopeRequest, WindowConstraint};
pub use sign::{
    Acceptance, AcceptancePolicy, CoSignature, CoSignatureReport, CompositeSignature,
    CompositeVerdict, SignatureSlot, SigningDomain, SlotVerdict, Suite,
};
pub use verify::{HistoricalStanding, HistoricalVerification, SignatifVerdict, TrustReport};

use crate::scope::ConditionView;
use crate::text::{cat2, cat3, cat4, cat5};

verus! {

/// Errors of the library.
#[derive(Debug, PartialEq, Eq)]
pub enum SignatifError {
    /// Malformed input: bad lengths, bad encodings.
    Validation(String),
    /// A scope constraint is unsatisfiable, or a widening was attempted.
    ScopeViolation(String),
    /// Cryptographic verification failed.
    Crypto(String),
    /// The suite is only framed here; `detail` says where it is computed.
    SuiteDeferred {
        /// The suite's token.
        suite: String,
        /// Where the computation belongs.
        detail: String,
    },
    /// No delegation path connects the key to a root of the anchor bundle.
    NoTrustPath {
        /// The key that could not be reached.
        key_id: String,
    },
    /// A path exists, but its effective scope excludes the request.
    ScopeExcluded {
        /// The key whose path is out of scope.
        key_id: String,
        /// What excluded the request.
        detail: String,
    },
    /// A path's effective scope carries a condition that the request does not
    /// satisfy.
    ScopeConditionFailed {
        /// The condition that was not met.
        condition: ScopeCondition,
    },
    /// There is no way to compute the suite here.
    Unsupported {
        /// The suite's token.
        suite: String,
        /// What would activate support.
        detail: String,
    },
    /// A delegation credential failed signature verification.
    CredentialSignatureInvalid {
        /// The delegating node.
        parent: String,
        /// The receiving node.
        child: String,
    },
    /// An operation refers to a node or key that is not there.
    Unknown {
        /// What kind of thing was not found.
        kind: &'static str,
        /// Its id.
        id: String,
    },
    /// A trust anchoring precondition failed.
    Trust(String),
    /// Verification of a transparency log proof failed.
    Transparency(String),
    /// A retroactive declaration lacks its quorum attestation.
    QuorumRequired {
        /// The subject of the declaration.
        subject: String,
    },
}

/// An error as a mathematical value.
#[verifier::ext_equal]
pub enum ErrorView {
    /// See [`SignatifError::Validation`].
    Validation(Seq<char>),
    /// See [`SignatifError::ScopeViolation`].
    ScopeViolation(Seq<char>),
    /// See [`SignatifError::Crypto`].
    Crypto(Seq<char>),
    /// See [`SignatifError::SuiteDeferred`].
    SuiteDeferred { suite: Seq<char>, detail: Seq<char> },
    /// See [`SignatifError::NoTrustPath`].
    NoTrustPath { key_id: Seq<char> },
    /// See [`SignatifError::ScopeExcluded`].
    ScopeExcluded { key_id: Seq<char>, detail: Seq<char> },
    /// See [`SignatifError::ScopeConditionFailed`].
    ScopeConditionFailed { condition: ConditionView },
    /// See [`SignatifError::Unsupported`].
    Unsupported { suite: Seq<char>, detail: Seq<char> },
    /// See [`SignatifError::CredentialSignatureInvalid`].
    CredentialSignatureInvalid { parent: Seq<char>, child: Seq<char> },
    /// See [`SignatifError::Unknown`].
    Unknown { kind: Seq<char>, id: Seq<char> },
    /// See [`SignatifError::Trust`].
    Trust(Seq<char>),
    /// See [`SignatifError::Transparency`].
    Transparency(Seq<char>),
    /// See [`SignatifError::QuorumRequired`].
    QuorumRequired { subject: Seq<char> },
}

impl View for SignatifError {
    type V = ErrorView;

    open spec fn view(&self) -> ErrorView {
        match self {
            SignatifError::Validation(m) => ErrorView::Validation(m@),
            SignatifError::ScopeViolation(m) => ErrorView::ScopeViolation(m@),
            SignatifError::Crypto(m) => ErrorView::Crypto(m@),
            SignatifError::SuiteDeferred { suite, detail } => ErrorView::SuiteDeferred {
                suite: suite@,
                detail: detail@,
            },
            SignatifError::NoTrustPath { key_id } => ErrorView::NoTrustPath { key_id: key_id@ },
            SignatifError::ScopeExcluded { key_id, detail } => ErrorView::ScopeExcluded {
                key_id: key_id@,
                detail: detail@,
            },
            SignatifError::ScopeConditionFailed { condition } => ErrorView::ScopeConditionFailed {
                condition: condition@,
            },
            SignatifError::Unsupported { suite, detail } => ErrorView::Unsupported {
                suite: suite@,
                detail: detail@,
            },
            SignatifError::CredentialSignatureInvalid { parent, child } =>
            ErrorView::CredentialSignatureInvalid { parent: parent@, child: child@ },
            SignatifError::Unknown { kind, id } => ErrorView::Unknown { kind: kind@, id: id@ },
            SignatifError::Trust(m) => ErrorView::Trust(m@),
            SignatifError::Transparency(m) => ErrorView::Transparency(m@),
            SignatifError::QuorumRequired { subject } => ErrorView::QuorumRequired {
                subject: subject@,
            },
        }
    }
}

impl ErrorView {
    /// The error in words.
    pub open spec fn text(self) -> Seq<char> {
        match self {
            ErrorView::Validation(m) => "validation error: "@ + m,
            ErrorView::ScopeViolation(m) => "scope violation: "@ + m,
            ErrorView::Crypto(m) => "cryptographic error: "@ + m,
            ErrorView::SuiteDeferred { suite, detail } => "suite `"@ + suite
                + "` is framing-only here: "@ + detail,
            ErrorView::NoTrustPath { key_id } =>
            "no delegation path from any anchored root to key `"@ + key_id + "`"@,
            ErrorView::ScopeExcluded { key_id, detail } => "path to key `"@ + key_id
                + "` exists but scope excludes the request: "@ + detail,
            ErrorView::ScopeConditionFailed { condition } => "scope condition `"@
                + condition.text() + "` ("@ + condition.label()
                + "-form) failed at verification time"@,
            ErrorView::Unsupported { suite, detail } => "suite `"@ + suite
                + "` is unsupported here: "@ + detail,
            ErrorView::CredentialSignatureInvalid { parent, child } => "delegation credential "@
                + parent + " -> "@ + child + " failed signature verification"@,
            ErrorView::Unknown { kind, id } => "unknown "@ + kind + " `"@ + id + "`"@,
            ErrorView::Trust(m) => "trust anchoring failed: "@ + m,
            ErrorView::Transparency(m) => "transparency error: "@ + m,
            ErrorView::QuorumRequired { subject } => "retroactive distrust of `"@ + subject
                + "` requires a quorum attestation (authority-over-authority is a threshold decision)"@,
        }
    }
}

impl SignatifError {
    /// A [`SignatifError::Validation`].
    pub fn invalid(msg: &str) -> (r: SignatifError)
        ensures
            r@ == ErrorView::Validation(msg@),
    {
        SignatifError::Validation(msg.to_owned())
    }

    /// A [`SignatifError::Crypto`].
    pub fn crypto(msg: &str) -> (r: SignatifError)
        ensures
            r@ == ErrorView::Crypto(msg@),
    {
        SignatifError::Crypto(msg.to_owned())
    }

    /// The error in words.
    pub fn to_string(&self) -> (r: String)
        ensures
            r@ == self@.text(),
    {
        match self {
            SignatifError::Validation(m) => cat2("validation error: ", m.as_str()),
            SignatifError::ScopeViolation(m) => cat2("scope violation: ", m.as_str()),
            SignatifError::Crypto(m) => cat2("cryptographic error: ", m.as_str()),
            SignatifError::SuiteDeferred { suite, detail } => cat4(
                "suite `",
                suite.as_str(),
                "` is framing-only here: ",
                detail.as_str(),
            ),
            SignatifError::NoTrustPath { key_id } => cat3(
                "no delegation path from any anchored root to key `",
                key_id.as_str(),
                "`",
            ),
            SignatifError::ScopeExcluded { key_id, detail } => cat4(
                "path to key `",
                key_id.as_str(),
                "` exists but scope excludes the request: ",
                detail.as_str(),
            ),
            SignatifError::ScopeConditionFailed { condition } => {
                let text = condition.to_string();
                cat5(
                    "scope condition `",
                    text.as_str(),
                    "` (",
                    condition.label(),
                    "-form) failed at verification time",
                )
            },
            SignatifError::Unsupported { suite, detail } => cat4(
                "suite `",
                suite.as_str(),
                "` is unsupported here: ",
                detail.as_str(),
            ),
            SignatifError::CredentialSignatureInvalid { parent, child } => cat5(
                "delegation credential ",
                parent.as_str(),
                " -> ",
                child.as_str(),
                " failed signature verification",
            ),
            SignatifError::Unknown { kind, id } => cat5("unknown ", kind, " `", id.as_str(), "`"),
            SignatifError::Trust(m) => cat2("trust anchoring failed: ", m.as_str()),
            SignatifError::Transparency(m) => cat2("transparency error: ", m.as_str()),
            SignatifError::QuorumRequired { subject } => cat3(
                "retroactive distrust of `",
                subject.as_str(),
                "` requires a quorum attestation (authority-over-authority is a threshold decision)",
            ),
        }
    }
}

impl Clone for SignatifError {
    fn clone(&self) -> (r: SignatifError)
        ensures
            r@ == self@,
    {
        match self {
            SignatifError::Validation(m) => SignatifError::Validation(m.clone()),
            SignatifError::ScopeViolation(m) => SignatifError::ScopeViolation(m.clone()),
            SignatifError::Crypto(m) => SignatifError::Crypto(m.clone()),
            SignatifError::SuiteDeferred { suite, detail } => SignatifError::SuiteDeferred {
                suite: suite.clone(),
                detail: detail.clone(),
            },
            SignatifError::NoTrustPath { key_id } => SignatifError::NoTrustPath {
                key_id: key_id.clone(),
            },
            SignatifError::ScopeExcluded { key_id, detail } => SignatifError::ScopeExcluded {
                key_id: key_id.clone(),
                detail: detail.clone(),
            },
            SignatifError::ScopeConditionFailed { condition } =>
            SignatifError::ScopeConditionFailed { condition: condition.clone() },
            SignatifError::Unsupported { suite, detail } => SignatifError::Unsupported {
                suite: suite.clone(),
                detail: detail.clone(),
            },
            SignatifError::CredentialSignatureInvalid { parent, child } =>
            SignatifError::CredentialSignatureInvalid {
                parent: parent.clone(),
                child: child.clone(),
            },
            SignatifError::Unknown { kind, id } => SignatifError::Unknown { kind, id: id.clone() },
            SignatifError::Trust(m) => SignatifError::Trust(m.clone()),
            SignatifError::Transparency(m) => SignatifError::Transparency(m.clone()),
            SignatifError::QuorumRequired { subject } => SignatifError::QuorumRequired {
                subject: subject.clone(),
            },
        }
    }
}

/// A result with its error as a mathematical value.
pub open spec fn outcome<T>(r: Result<T, SignatifError>) -> Result<T, ErrorView> {
    match r {
        Ok(v) => Ok(v),
        Err(e) => Err(e@),
    }
}

/// The error of a result.
pub open spec fn error_of<T>(r: Result<T, ErrorView>) -> Option<ErrorView> {
    match r {
        Ok(_) => None,
        Err(e) => Some(e),
    }
}

/// The first error of a list.
pub open spec fn first_error(s: Seq<Option<ErrorView>>) -> Option<ErrorView>
    decreases s.len(),
{
    if s.len() == 0 {
        None
    } else {
        match first_error(s.drop_last()) {
            Some(e) => Some(e),
            None => s.last(),
        }
    }
}

/// An error after a prefix without errors is the first.
pub(crate) proof fn lemma_first_error(s: Seq<Option<ErrorView>>, k: int)
    requires
        0 < k <= s.len(),
        first_error(s.take(k)) is Some,
    ensures
        first_error(s) == first_error(s.take(k)),
    decreases s.len() - k,
{
    if k < s.len() {
        assert(s.take(k + 1).drop_last() =~= s.take(k));
        lemma_first_error(s, k + 1);
    } else {
        assert(s.take(k) =~= s);
    }
}

/// A list without errors has no first error.
pub(crate) proof fn lemma_all_clear(s: Seq<Option<ErrorView>>)
    requires
        forall|i: int| 0 <= i < s.len() ==> (#[trigger] s[i]) is None,
    ensures
        first_error(s) is None,
    decreases s.len(),
{
    if s.len() > 0 {
        assert forall|i: int| 0 <= i < s.len() - 1 implies (#[trigger] s.drop_last()[i]) is None by {
            assert(s[i] is None);
        }
        lemma_all_clear(s.drop_last());
        assert(s[s.len() - 1] is None);
    }
}

/// A list without a first error has no error at all.
pub(crate) proof fn lemma_no_error(s: Seq<Option<ErrorView>>, i: int)
    requires
        first_error(s) is None,
        0 <= i < s.len(),
    ensures
        s[i] is None,
    decreases s.len(),
{
    if i < s.len() - 1 {
        lemma_no_error(s.drop_last(), i);
        assert(s.drop_last()[i] == s[i]);
    }
}

} // verus!
