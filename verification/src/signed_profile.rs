//! Signed profiles: the issuer signs the profile, and the class of the issuer
//! caps the grade of every judgment under it.

use vstd::prelude::*;

use crate::bytes::{copied, utf8};
use crate::graph::{GraphView, NodeId, TrustGraph};
use crate::json::{json_quote, json_quoted};
use crate::keyring::KeyPair;
use crate::sign::{signing_error, SignatureSlot, SigningDomain};
use crate::signer::{check_signer, issued, registered, signer_check};
use crate::text::{cat3, cat7, same_text};
use crate::{ErrorView, SignatifError};

verus! {

/// What kind of authority a profile has.
#[derive(Debug, Clone, Copy, PartialEq, Eq, Structural)]
pub enum IssuerClass {
    /// A law.
    Law,
    /// A treaty.
    Treaty,
    /// A consensus of the market.
    Consensus,
    /// A third party's attestation.
    Attestation,
    /// A declaration of one's own.
    Declaration,
}

/// How strong a judgment is.
#[derive(Debug, Clone, Copy, PartialEq, Eq, Structural)]
pub enum TrustGrade {
    /// Declared by the party itself.
    SelfDeclared,
    /// Attested by a third party.
    ThirdParty,
    /// Practice of the market.
    MarketPractice,
    /// Demanded by regulation.
    Regulatory,
}

impl TrustGrade {
    /// The place of the grade in ascending order of strength.
    pub open spec fn rank(self) -> int {
        match self {
            TrustGrade::SelfDeclared => 0,
            TrustGrade::ThirdParty => 1,
            TrustGrade::MarketPractice => 2,
            TrustGrade::Regulatory => 3,
        }
    }
}

impl IssuerClass {
    /// The token of the class.
    pub open spec fn spec_token(self) -> Seq<char> {
        match self {
            IssuerClass::Law => "law"@,
            IssuerClass::Treaty => "treaty"@,
            IssuerClass::Consensus => "consensus"@,
            IssuerClass::Attestation => "attestation"@,
            IssuerClass::Declaration => "declaration"@,
        }
    }

    /// The token of the class.
    pub fn token(self) -> (r: &'static str)
        ensures
            r@ == self.spec_token(),
    {
        match self {
            IssuerClass::Law => "law",
            IssuerClass::Treaty => "treaty",
            IssuerClass::Consensus => "consensus",
            IssuerClass::Attestation => "attestation",
            IssuerClass::Declaration => "declaration",
        }
    }

    /// The strongest grade of a judgment under a profile of the class.
    pub open spec fn ceiling(self) -> TrustGrade {
        match self {
            IssuerClass::Law | IssuerClass::Treaty => TrustGrade::Regulatory,
            IssuerClass::Consensus => TrustGrade::MarketPractice,
            IssuerClass::Attestation => TrustGrade::ThirdParty,
            IssuerClass::Declaration => TrustGrade::SelfDeclared,
        }
    }

    /// The strongest grade of a judgment under a profile of the class.
    pub fn grade_ceiling(self) -> (r: TrustGrade)
        ensures
            r == self.ceiling(),
    {
        match self {
            IssuerClass::Law => TrustGrade::Regulatory,
            IssuerClass::Treaty => TrustGrade::Regulatory,
            IssuerClass::Consensus => TrustGrade::MarketPractice,
            IssuerClass::Attestation => TrustGrade::ThirdParty,
            IssuerClass::Declaration => TrustGrade::SelfDeclared,
        }
    }
}

/// A profile: its id, the class of its issuer, and its other members in
/// serialized form.
#[derive(Debug, Clone, PartialEq, Eq)]
pub struct ProfileManifest {
    /// The id.
    pub id: String,
    /// The class of the issuer.
    pub issuer_class: IssuerClass,
    /// The other members, as they stand in the JSON object behind the first two;
    /// empty if there are none.
    pub content: String,
}

impl ProfileManifest {
    /// The profile in serialized form: a JSON object on one line, with the id and
    /// the class first.
    pub open spec fn json(self) -> Seq<char> {
        "{\"id\":"@ + json_quoted(self.id@) + ",\"issuer_class\":"@ + json_quoted(
            self.issuer_class.spec_token(),
        ) + (if self.content@.len() == 0 {
            ""@
        } else {
            ","@
        }) + self.content@ + "}"@
    }

    /// The bytes that are signed.
    pub open spec fn bytes(self) -> Seq<u8> {
        utf8(self.json())
    }
}

/// A profile with its issuer's signature.
#[derive(Debug, Clone, PartialEq, Eq)]
pub struct SignedProfile {
    /// The profile.
    pub manifest: ProfileManifest,
    /// The issuer.
    pub issuer: String,
    /// The issuer's signature.
    pub signature: SignatureSlot,
}

/// What checking a profile gives: who issued it, and how strong a judgment
/// under it can be.
#[derive(Debug, Clone, PartialEq, Eq)]
pub struct ProfileCheck {
    /// The issuer.
    pub issuer: NodeId,
    /// The class of the issuer.
    pub class: IssuerClass,
    /// The strongest grade of a judgment.
    pub grade_ceiling: TrustGrade,
}

impl SignedProfile {
    fn canonical_bytes(manifest: &ProfileManifest) -> (r: Vec<u8>)
        ensures
            r@ == manifest.bytes(),
    {
        let id = json_quote(manifest.id.as_str());
        let class = json_quote(manifest.issuer_class.token());
        let bare = same_text(manifest.content.as_str(), "");
        proof {
            reveal_strlit("");
            assert(manifest.content@.len() == 0 ==> manifest.content@ =~= ""@);
        }
        let text = cat7(
            "{\"id\":",
            id.as_str(),
            ",\"issuer_class\":",
            class.as_str(),
            if bare {
                ""
            } else {
                ","
            },
            manifest.content.as_str(),
            "}",
        );
        copied(text.as_str().as_bytes())
    }

    /// What checking the signature gives.
    pub open spec fn check(self, graph: GraphView) -> Result<Seq<char>, ErrorView> {
        signer_check(
            graph,
            self.issuer@,
            "profile issuer: "@,
            "profile issuer `"@ + self.issuer@ + "` has no such key"@,
            self.signature@,
            SigningDomain::Profile,
            self.manifest.bytes(),
        )
    }

    /// The issuer signs a profile.
    pub fn issue(manifest: ProfileManifest, issuer: &str, key: &KeyPair) -> (r: Result<
        SignedProfile,
        SignatifError,
    >)
        ensures
            r is Ok == key.slot(SigningDomain::Profile, manifest.bytes()) is Some,
            r matches Ok(s) ==> s.manifest == manifest && s.issuer@ == issuer@ && issued(
                *key,
                SigningDomain::Profile,
                manifest.bytes(),
                s.signature@,
            ),
            r matches Err(e) ==> e@ == signing_error(),
    {
        let bytes = SignedProfile::canonical_bytes(&manifest);
        match SignatureSlot::sign(key, SigningDomain::Profile, bytes.as_slice()) {
            Err(e) => Err(e),
            Ok(signature) => Ok(SignedProfile { manifest, issuer: issuer.to_owned(), signature }),
        }
    }

    /// Checks the signature under the issuer's registered key. The class caps
    /// the grade.
    pub fn verify(&self, graph: &TrustGraph) -> (r: Result<ProfileCheck, SignatifError>)
        ensures
            match self.check(graph@) {
                Ok(id) => r matches Ok(c) && c.issuer@ == id && c.class
                    == self.manifest.issuer_class && c.grade_ceiling
                    == self.manifest.issuer_class.ceiling(),
                Err(f) => r matches Err(e) && e@ == f,
            },
    {
        let missing = cat3("profile issuer `", self.issuer.as_str(), "` has no such key");
        let bytes = SignedProfile::canonical_bytes(&self.manifest);
        match check_signer(
            graph,
            self.issuer.as_str(),
            "profile issuer: ",
            missing.as_str(),
            &self.signature,
            SigningDomain::Profile,
            bytes.as_slice(),
        ) {
            Err(e) => Err(e),
            Ok(issuer) => Ok(
                ProfileCheck {
                    issuer,
                    class: self.manifest.issuer_class,
                    grade_ceiling: self.manifest.issuer_class.grade_ceiling(),
                },
            ),
        }
    }
}

/// Only a law or a treaty reaches the strongest grade, and a declaration never
/// gets above the weakest.
pub proof fn classes_cap_the_grade(class: IssuerClass)
    ensures
        class.ceiling() == TrustGrade::Regulatory <==> class == IssuerClass::Law || class
            == IssuerClass::Treaty,
        class == IssuerClass::Declaration ==> class.ceiling().rank() == 0,
{
}

/// A profile that its issuer signed verifies wherever the issuer's key is
/// registered.
pub proof fn issued_profiles_verify(s: SignedProfile, key: KeyPair, graph: GraphView)
    requires
        issued(key, SigningDomain::Profile, s.manifest.bytes(), s.signature@),
        registered(graph, s.issuer@, key),
    ensures
        s.check(graph) is Ok,
{
}

} // verus!
