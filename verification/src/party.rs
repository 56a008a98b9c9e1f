//! Party classes and the signing matrix: which class may sign which kind of
//! object.
//!
//! The class of a party says what its role is, whatever kind of node it has in
//! the trust graph. A signature that verifies but comes from the wrong class is
//! refused at intake.

use vstd::prelude::*;

use crate::graph::{DelegationNode, NodeId, NodeView, TrustGraph};
use crate::text::cat5;
use crate::{ErrorView, SignatifError};

verus! {

/// The classes of parties.
#[derive(Debug, Clone, Copy, PartialEq, Eq, Structural)]
pub enum PartyClass {
    /// A government or regulator.
    Government,
    /// An international standardization or treaty body.
    InternationalBody,
    /// An authority that accredits conformity bodies.
    AccreditationAuthority,
    /// A body that issues conformity evidence.
    ConformityBody,
    /// A manufacturer.
    Manufacturer,
    /// A verifier.
    Verifier,
    /// A bearer or owner.
    Bearer,
    /// An operator of infrastructure.
    Operator,
    /// A party that attests dynamic data.
    UpdateActor,
}

/// The kinds of objects that a signature can attest.
#[derive(Debug, Clone, Copy, PartialEq, Eq, Structural)]
pub enum ObjectClass {
    /// A segment policy.
    SegmentPolicy,
    /// A spine root.
    SpineRoot,
    /// A profile.
    Profile,
    /// A cross-border message.
    S13Message,
    /// A sovereign attestation.
    SovereignAttestation,
    /// A witness attestation of a master list.
    MasterListWitness,
    /// An accreditation.
    Accreditation,
    /// An interop declaration.
    InteropDeclaration,
    /// A hub's relay statement.
    HubRelay,
}

impl PartyClass {
    /// The token of the class.
    pub open spec fn spec_token(self) -> Seq<char> {
        match self {
            PartyClass::Government => "government"@,
            PartyClass::InternationalBody => "international-body"@,
            PartyClass::AccreditationAuthority => "accreditation-authority"@,
            PartyClass::ConformityBody => "conformity-body"@,
            PartyClass::Manufacturer => "manufacturer"@,
            PartyClass::Verifier => "verifier"@,
            PartyClass::Bearer => "bearer"@,
            PartyClass::Operator => "operator"@,
            PartyClass::UpdateActor => "update-actor"@,
        }
    }

    /// The token of the class.
    pub fn token(self) -> (r: &'static str)
        ensures
            r@ == self.spec_token(),
    {
        match self {
            PartyClass::Government => "government",
            PartyClass::InternationalBody => "international-body",
            PartyClass::AccreditationAuthority => "accreditation-authority",
            PartyClass::ConformityBody => "conformity-body",
            PartyClass::Manufacturer => "manufacturer",
            PartyClass::Verifier => "verifier",
            PartyClass::Bearer => "bearer",
            PartyClass::Operator => "operator",
            PartyClass::UpdateActor => "update-actor",
        }
    }

    /// The kinds of objects that the class may sign.
    pub open spec fn may_sign(self) -> Seq<ObjectClass> {
        match self {
            PartyClass::Government => seq![
                ObjectClass::SegmentPolicy,
                ObjectClass::Accreditation,
                ObjectClass::MasterListWitness,
            ],
            PartyClass::InternationalBody => seq![
                ObjectClass::Profile,
                ObjectClass::MasterListWitness,
            ],
            PartyClass::AccreditationAuthority => seq![
                ObjectClass::Accreditation,
                ObjectClass::MasterListWitness,
            ],
            PartyClass::ConformityBody => seq![ObjectClass::SovereignAttestation],
            PartyClass::Manufacturer => seq![
                ObjectClass::Profile,
                ObjectClass::SpineRoot,
                ObjectClass::S13Message,
            ],
            PartyClass::Verifier => seq![ObjectClass::S13Message],
            PartyClass::Bearer => seq![],
            PartyClass::Operator => seq![
                ObjectClass::SpineRoot,
                ObjectClass::S13Message,
                ObjectClass::InteropDeclaration,
                ObjectClass::HubRelay,
            ],
            PartyClass::UpdateActor => seq![ObjectClass::SovereignAttestation],
        }
    }
}

impl ObjectClass {
    /// The token of the kind.
    pub open spec fn spec_token(self) -> Seq<char> {
        match self {
            ObjectClass::SegmentPolicy => "segment-policy"@,
            ObjectClass::SpineRoot => "spine-root"@,
            ObjectClass::Profile => "profile"@,
            ObjectClass::S13Message => "s13-message"@,
            ObjectClass::SovereignAttestation => "sovereign-attestation"@,
            ObjectClass::MasterListWitness => "master-list-witness"@,
            ObjectClass::Accreditation => "accreditation"@,
            ObjectClass::InteropDeclaration => "interop-declaration"@,
            ObjectClass::HubRelay => "hub-relay"@,
        }
    }

    /// The token of the kind.
    pub fn token(self) -> (r: &'static str)
        ensures
            r@ == self.spec_token(),
    {
        match self {
            ObjectClass::SegmentPolicy => "segment-policy",
            ObjectClass::SpineRoot => "spine-root",
            ObjectClass::Profile => "profile",
            ObjectClass::S13Message => "s13-message",
            ObjectClass::SovereignAttestation => "sovereign-attestation",
            ObjectClass::MasterListWitness => "master-list-witness",
            ObjectClass::Accreditation => "accreditation",
            ObjectClass::InteropDeclaration => "interop-declaration",
            ObjectClass::HubRelay => "hub-relay",
        }
    }
}

/// The classes, in the order of the matrix.
pub const PARTY_CLASSES: [PartyClass; 9] = [
    PartyClass::Government,
    PartyClass::InternationalBody,
    PartyClass::AccreditationAuthority,
    PartyClass::ConformityBody,
    PartyClass::Manufacturer,
    PartyClass::Verifier,
    PartyClass::Bearer,
    PartyClass::Operator,
    PartyClass::UpdateActor,
];

/// The row of the matrix for a class.
fn row(party: PartyClass) -> (r: Vec<ObjectClass>)
    ensures
        r@ == party.may_sign(),
{
    let out: Vec<ObjectClass> = match party {
        PartyClass::Government => vec![
            ObjectClass::SegmentPolicy,
            ObjectClass::Accreditation,
            ObjectClass::MasterListWitness,
        ],
        PartyClass::InternationalBody => vec![ObjectClass::Profile, ObjectClass::MasterListWitness],
        PartyClass::AccreditationAuthority => vec![
            ObjectClass::Accreditation,
            ObjectClass::MasterListWitness,
        ],
        PartyClass::ConformityBody => vec![ObjectClass::SovereignAttestation],
        PartyClass::Manufacturer => vec![
            ObjectClass::Profile,
            ObjectClass::SpineRoot,
            ObjectClass::S13Message,
        ],
        PartyClass::Verifier => vec![ObjectClass::S13Message],
        PartyClass::Bearer => Vec::new(),
        PartyClass::Operator => vec![
            ObjectClass::SpineRoot,
            ObjectClass::S13Message,
            ObjectClass::InteropDeclaration,
            ObjectClass::HubRelay,
        ],
        PartyClass::UpdateActor => vec![ObjectClass::SovereignAttestation],
    };
    assert(out@ =~= party.may_sign());
    out
}

/// The signing matrix: for every class the kinds of objects it may sign.
pub fn signing_matrix() -> (r: Vec<(PartyClass, Vec<ObjectClass>)>)
    ensures
        r@.len() == 9,
        forall|i: int|
            0 <= i < 9 ==> (#[trigger] r@[i]).0 == PARTY_CLASSES@[i] && r@[i].1@
                == PARTY_CLASSES@[i].may_sign(),
{
    let mut out: Vec<(PartyClass, Vec<ObjectClass>)> = Vec::new();
    let mut i: usize = 0;
    while i < 9
        invariant
            i <= 9,
            out@.len() == i,
            forall|k: int|
                0 <= k < i ==> (#[trigger] out@[k]).0 == PARTY_CLASSES@[k] && out@[k].1@
                    == PARTY_CLASSES@[k].may_sign(),
        decreases 9 - i,
    {
        let party = PARTY_CLASSES[i];
        out.push((party, row(party)));
        i += 1;
    }
    out
}

/// The error of a signature from the wrong class.
pub open spec fn intake_error(party: PartyClass, object: ObjectClass) -> ErrorView {
    ErrorView::Validation(
        "signing matrix: a `"@ + party.spec_token() + "` may not sign a `"@ + object.spec_token()
            + "` — out-of-class signature refused at intake"@,
    )
}

/// The intake check: whether a party of a class may sign an object of a kind.
pub fn intake_permits(party: PartyClass, object: ObjectClass) -> (r: Result<(), SignatifError>)
    ensures
        r is Ok == party.may_sign().contains(object),
        r matches Err(e) ==> e@ == intake_error(party, object),
{
    let allowed = row(party);
    let mut i: usize = 0;
    while i < allowed.len()
        invariant
            i <= allowed.len(),
            allowed@ == party.may_sign(),
            forall|k: int| 0 <= k < i ==> #[trigger] allowed@[k] != object,
        decreases allowed.len() - i,
    {
        if allowed[i] == object {
            assert(party.may_sign()[i as int] == object);
            return Ok(());
        }
        i += 1;
    }
    Err(
        SignatifError::Validation(
            cat5(
                "signing matrix: a `",
                party.token(),
                "` may not sign a `",
                object.token(),
                "` — out-of-class signature refused at intake",
            ),
        ),
    )
}

/// The declared class of a node.
pub fn party_of(graph: &TrustGraph, node: &NodeId) -> (r: Option<PartyClass>)
    ensures
        r == match graph@.node(node@) {
            None => None,
            Some(n) => n.party,
        },
{
    match graph.node(node) {
        None => None,
        Some(n) => n.party,
    }
}

/// Declares the class of a node.
pub fn declare_party(node: &mut DelegationNode, party: PartyClass)
    ensures
        final(node)@ == (NodeView { party: Some(party), ..old(node)@ }),
{
    node.party = Some(party);
}

/// A bearer signs nothing; only governments and accreditation authorities
/// accredit; only conformity bodies and update actors attest.
pub proof fn signing_is_class_bound(party: PartyClass, object: ObjectClass)
    ensures
        party == PartyClass::Bearer ==> !party.may_sign().contains(object),
        party.may_sign().contains(ObjectClass::Accreditation) ==> party == PartyClass::Government
            || party == PartyClass::AccreditationAuthority,
        party.may_sign().contains(ObjectClass::SovereignAttestation) ==> party
            == PartyClass::ConformityBody || party == PartyClass::UpdateActor,
{
}

} // verus!
