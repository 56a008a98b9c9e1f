//! Delivery: evidence moves only with the publisher's declared willingness, by
//! the protocol, as a document or through a hub. What is not offered is a stated
//! gap.

use vstd::prelude::*;

use crate::bytes::{same_array, utf8};
use crate::canon::fields;
use crate::declaration::{permitted, DeclarationSet, Permission, PermissionView, TransportMode};
use crate::digest::{sha256, sha256_of};
use crate::graph::{GraphView, TrustGraph};
use crate::keyring::KeyPair;
use crate::sign::{canonical_fields, signing_error, slice_views, SignatureSlot, SigningDomain};
use crate::signer::{check_signer, issued, registered, signer_check};
use crate::text::{cat3, cat4, cat7};
use crate::{ErrorView, SignatifError};

verus! {

/// What came of a delivery.
#[derive(Debug, Clone, PartialEq, Eq)]
pub enum DeliveryOutcome {
    /// The evidence was delivered.
    Delivered {
        /// The digest of the evidence.
        evidence_digest: [u8; 32],
        /// How it travelled.
        mode: TransportMode,
    },
    /// It was not.
    Gap {
        /// Why.
        reason: String,
    },
}

/// Why nothing is delivered without a declaration.
pub open spec fn absence_reason(
    declarer: Seq<char>,
    counterpart: Seq<char>,
    data_class: Seq<char>,
) -> Seq<char> {
    "`"@ + declarer + "` publishes no interop declaration covering class `"@ + data_class
        + "` toward `"@ + counterpart
        + "` — absence of willingness is stated, never assumed"@
}

/// Delivers evidence, if the declarer's declarations permit it, or states the
/// gap.
pub fn deliver(
    declarations: &DeclarationSet,
    declarer: &str,
    counterpart: &str,
    data_class: &str,
    mode: TransportMode,
    evidence: &[u8],
) -> (r: DeliveryOutcome)
    ensures
        match permitted(
            declarations.declarations@,
            declarer@,
            counterpart@,
            data_class@,
            mode,
        ) {
            PermissionView::Permitted { .. } => r matches DeliveryOutcome::Delivered {
                evidence_digest,
                mode: m,
            } && evidence_digest@ == sha256_of(evidence@) && m == mode,
            PermissionView::Refused { reason: why } => r matches DeliveryOutcome::Gap { reason }
                && reason@ == why,
            PermissionView::NoDeclaration => r matches DeliveryOutcome::Gap { reason } && reason@
                == absence_reason(declarer@, counterpart@, data_class@),
        },
{
    match declarations.permits(declarer, counterpart, data_class, mode) {
        Permission::Permitted { .. } => DeliveryOutcome::Delivered {
            evidence_digest: sha256(evidence).0,
            mode,
        },
        Permission::Refused { reason } => DeliveryOutcome::Gap { reason },
        Permission::NoDeclaration => DeliveryOutcome::Gap {
            reason: cat7(
                "`",
                declarer,
                "` publishes no interop declaration covering class `",
                data_class,
                "` toward `",
                counterpart,
                "` — absence of willingness is stated, never assumed",
            ),
        },
    }
}

/// A hub: it relays between two sides that are both willing, signs what it
/// relays, and keeps nothing.
#[derive(Debug, Clone, PartialEq, Eq)]
pub struct Hub {
    /// The id of the hub.
    pub hub_id: String,
}

/// What a hub signs: which bytes went from whom to whom, under which class.
pub open spec fn relay_bytes(
    hub_id: Seq<char>,
    evidence: Seq<u8>,
    from: Seq<char>,
    to: Seq<char>,
    data_class: Seq<char>,
) -> Seq<u8> {
    fields(
        seq![utf8(hub_id), sha256_of(evidence), utf8(from), utf8(to), utf8(data_class)],
    )
}

/// Why a hub does not relay what one side has to permit.
pub open spec fn relay_refusal(
    hub_id: Seq<char>,
    permission: PermissionView,
    declarer: Seq<char>,
    counterpart: Seq<char>,
    data_class: Seq<char>,
) -> Option<ErrorView> {
    match permission {
        PermissionView::Permitted { .. } => None,
        PermissionView::Refused { reason } => Some(
            ErrorView::Crypto("hub `"@ + hub_id + "` refuses the relay: "@ + reason),
        ),
        PermissionView::NoDeclaration => Some(
            ErrorView::Crypto(
                "hub `"@ + hub_id + "` refuses the relay: "@ + ("`"@ + declarer
                    + "` publishes no interop declaration covering class `"@ + data_class
                    + "` toward `"@ + counterpart + "`"@),
            ),
        ),
    }
}

/// What a hub relayed.
#[derive(Debug, Clone, PartialEq, Eq)]
pub struct RelayedEvidence {
    /// The hub.
    pub hub_id: String,
    /// The sender.
    pub from: String,
    /// The recipient.
    pub to: String,
    /// The data class.
    pub data_class: String,
    /// The digest of the bytes.
    pub evidence_digest: [u8; 32],
    /// The hub's signature.
    pub signature: SignatureSlot,
}

impl Hub {
    /// Why the hub does not relay: one of the two sides does not permit it.
    pub open spec fn refusal(
        self,
        from: Seq<char>,
        to: Seq<char>,
        data_class: Seq<char>,
        declarations: DeclarationSet,
    ) -> Option<ErrorView> {
        let s = declarations.declarations@;
        match relay_refusal(
            self.hub_id@,
            permitted(s, from, to, data_class, TransportMode::Hub),
            from,
            to,
            data_class,
        ) {
            Some(e) => Some(e),
            None => relay_refusal(
                self.hub_id@,
                permitted(s, to, from, data_class, TransportMode::Hub),
                to,
                from,
                data_class,
            ),
        }
    }

    fn relay_payload(
        hub_id: &str,
        evidence: &[u8],
        from: &str,
        to: &str,
        data_class: &str,
    ) -> (r: Vec<u8>)
        ensures
            r@ == relay_bytes(hub_id@, evidence@, from@, to@, data_class@),
    {
        let digest = sha256(evidence).0;
        let parts: [&[u8]; 5] = [
            hub_id.as_bytes(),
            digest.as_slice(),
            from.as_bytes(),
            to.as_bytes(),
            data_class.as_bytes(),
        ];
        let r = canonical_fields(parts.as_slice());
        assert(slice_views(parts@) =~= seq![
            utf8(hub_id@),
            sha256_of(evidence@),
            utf8(from@),
            utf8(to@),
            utf8(data_class@),
        ]);
        r
    }

    fn side_permits(
        &self,
        declarer: &str,
        counterpart: &str,
        data_class: &str,
        declarations: &DeclarationSet,
    ) -> (r: Result<(), SignatifError>)
        ensures
            match relay_refusal(
                self.hub_id@,
                permitted(
                    declarations.declarations@,
                    declarer@,
                    counterpart@,
                    data_class@,
                    TransportMode::Hub,
                ),
                declarer@,
                counterpart@,
                data_class@,
            ) {
                None => r is Ok,
                Some(f) => r matches Err(e) && e@ == f,
            },
    {
        match declarations.permits(declarer, counterpart, data_class, TransportMode::Hub) {
            Permission::Permitted { .. } => Ok(()),
            Permission::Refused { reason } => Err(
                SignatifError::Crypto(
                    cat4("hub `", self.hub_id.as_str(), "` refuses the relay: ", reason.as_str()),
                ),
            ),
            Permission::NoDeclaration => {
                let why = cat7(
                    "`",
                    declarer,
                    "` publishes no interop declaration covering class `",
                    data_class,
                    "` toward `",
                    counterpart,
                    "`",
                );
                Err(
                    SignatifError::Crypto(
                        cat4("hub `", self.hub_id.as_str(), "` refuses the relay: ", why.as_str()),
                    ),
                )
            },
        }
    }

    /// Relays evidence, if both sides permit it, and signs what was relayed.
    pub fn relay(
        &self,
        evidence: &[u8],
        from: &str,
        to: &str,
        data_class: &str,
        declarations: &DeclarationSet,
        key: &KeyPair,
    ) -> (r: Result<RelayedEvidence, SignatifError>)
        ensures
            match self.refusal(from@, to@, data_class@, *declarations) {
                Some(f) => r matches Err(e) && e@ == f,
                None => match key.slot(
                    SigningDomain::HubRelay,
                    relay_bytes(self.hub_id@, evidence@, from@, to@, data_class@),
                ) {
                    None => r matches Err(e) && e@ == signing_error(),
                    Some(_) => r matches Ok(x) && x.hub_id@ == self.hub_id@ && x.from@ == from@
                        && x.to@ == to@ && x.data_class@ == data_class@ && x.evidence_digest@
                        == sha256_of(evidence@) && issued(
                        *key,
                        SigningDomain::HubRelay,
                        relay_bytes(self.hub_id@, evidence@, from@, to@, data_class@),
                        x.signature@,
                    ),
                },
            },
    {
        if let Err(e) = self.side_permits(from, to, data_class, declarations) {
            return Err(e);
        }
        if let Err(e) = self.side_permits(to, from, data_class, declarations) {
            return Err(e);
        }
        let payload = Hub::relay_payload(self.hub_id.as_str(), evidence, from, to, data_class);
        match SignatureSlot::sign(key, SigningDomain::HubRelay, payload.as_slice()) {
            Err(e) => Err(e),
            Ok(signature) => Ok(
                RelayedEvidence {
                    hub_id: self.hub_id.clone(),
                    from: from.to_owned(),
                    to: to.to_owned(),
                    data_class: data_class.to_owned(),
                    evidence_digest: sha256(evidence).0,
                    signature,
                },
            ),
        }
    }
}

impl RelayedEvidence {
    /// What checking the relay against the bytes that arrived gives.
    pub open spec fn check(self, evidence: Seq<u8>, graph: GraphView) -> Result<(), ErrorView> {
        match signer_check(
            graph,
            self.hub_id@,
            "hub relay: "@,
            "hub `"@ + self.hub_id@ + "` has no such key"@,
            self.signature@,
            SigningDomain::HubRelay,
            relay_bytes(self.hub_id@, evidence, self.from@, self.to@, self.data_class@),
        ) {
            Err(e) => Err(e),
            Ok(_) => if self.evidence_digest@ == sha256_of(evidence) {
                Ok(())
            } else {
                Err(
                    ErrorView::Crypto(
                        "hub relay: the attested digest does not match the arrived bytes"@,
                    ),
                )
            },
        }
    }

    /// Checks the hub's signature, and that the bytes that arrived are those
    /// that it relayed.
    pub fn verify(&self, evidence: &[u8], graph: &TrustGraph) -> (r: Result<(), SignatifError>)
        ensures
            crate::outcome(r) == self.check(evidence@, graph@),
    {
        let missing = cat3("hub `", self.hub_id.as_str(), "` has no such key");
        let payload = Hub::relay_payload(
            self.hub_id.as_str(),
            evidence,
            self.from.as_str(),
            self.to.as_str(),
            self.data_class.as_str(),
        );
        if let Err(e) = check_signer(
            graph,
            self.hub_id.as_str(),
            "hub relay: ",
            missing.as_str(),
            &self.signature,
            SigningDomain::HubRelay,
            payload.as_slice(),
        ) {
            return Err(e);
        }
        let digest = sha256(evidence).0;
        if !same_array(&self.evidence_digest, &digest) {
            return Err(
                SignatifError::crypto(
                    "hub relay: the attested digest does not match the arrived bytes",
                ),
            );
        }
        Ok(())
    }
}

/// A hub relays only between two sides that both offer it: neither side's
/// refusal is brokered around.
pub proof fn hubs_need_both_sides(
    hub: Hub,
    from: Seq<char>,
    to: Seq<char>,
    data_class: Seq<char>,
    declarations: DeclarationSet,
)
    requires
        hub.refusal(from, to, data_class, declarations) is None,
    ensures
        permitted(
            declarations.declarations@,
            from,
            to,
            data_class,
            TransportMode::Hub,
        ) is Permitted,
        permitted(
            declarations.declarations@,
            to,
            from,
            data_class,
            TransportMode::Hub,
        ) is Permitted,
{
}

/// A relay verifies against the very bytes that the hub passed on, wherever the
/// hub's key is registered.
pub proof fn relays_verify(
    x: RelayedEvidence,
    evidence: Seq<u8>,
    key: KeyPair,
    graph: GraphView,
)
    requires
        x.evidence_digest@ == sha256_of(evidence),
        issued(
            key,
            SigningDomain::HubRelay,
            relay_bytes(x.hub_id@, evidence, x.from@, x.to@, x.data_class@),
            x.signature@,
        ),
        registered(graph, x.hub_id@, key),
    ensures
        x.check(evidence, graph) is Ok,
{
}

} // verus!
