//! Roll-up attestations: an attester signs what was aggregated over a set of
//! passports, and the signature travels in a carrier slot.

use vstd::prelude::*;

use crate::canon::{list_bytes, text_field, CanonicalWriter};
use crate::digest::Hash32;
use crate::keyring::{is_key_id, key_ids_are_trimmed, KeyPair, KeyView, PublicKey};
use crate::sets::texts;
use crate::sign::{
    signature_view, signing_error, SigSlot, SignatureSlot, SigningDomain, SlotView, Suite,
};
use crate::signer::issued;
use crate::text::{cat3, trimmed};
use crate::{ErrorView, SignatifError};

verus! {

/// What was aggregated over a set of passports.
#[derive(Debug, Clone, PartialEq, Eq)]
pub struct RollupAttestation {
    /// The passport that the roll-up belongs to.
    pub subject: String,
    /// The root over the set.
    pub set_root: Hash32,
    /// The aggregates.
    pub aggregates: Vec<String>,
    /// The method of aggregation.
    pub method_ref: String,
    /// The attester.
    pub attester: String,
    /// The attester's signature.
    pub signature: SigSlot,
}

impl RollupAttestation {
    /// The bytes that the signature covers.
    pub open spec fn body(self) -> Seq<u8> {
        text_field(self.subject@) + self.set_root@ + list_bytes(texts(self.aggregates@))
            + text_field(self.method_ref@) + text_field(self.attester@)
    }

    /// The bytes that the signature covers.
    pub fn canonical_body(&self) -> (r: Vec<u8>)
        ensures
            r@ == self.body(),
    {
        let mut w = CanonicalWriter::new();
        w.write_str(self.subject.as_str());
        w.write_hash(&self.set_root);
        w.write_list(&self.aggregates);
        w.write_str(self.method_ref.as_str());
        w.write_str(self.attester.as_str());
        assert(w@ =~= self.body());
        w.into_bytes()
    }

    /// Replaces the signature.
    pub fn install_signature(&mut self, slot: SigSlot)
        ensures
            *final(self) == (RollupAttestation { signature: slot, ..*old(self) }),
    {
        self.signature = slot;
    }
}

/// The error of a suite that has no place on a carrier.
pub open spec fn carrier_error(suite: Suite) -> ErrorView {
    ErrorView::Crypto("suite "@ + suite.token() + " has no core carrier slot"@)
}

/// Signs a roll-up and installs the signature. It verifies under the pair's
/// public key.
pub fn sign_rollup(key: &KeyPair, attestation: &mut RollupAttestation) -> (r: Result<
    (),
    SignatifError,
>)
    ensures
        match key.slot(SigningDomain::RollupAttestation, old(attestation).body()) {
            None => r matches Err(e) && e@ == signing_error(),
            Some(slot) => match slot.suite.carrier() {
                None => r matches Err(e) && e@ == carrier_error(key.spec_suite()),
                Some(suite) => r is Ok && *final(attestation) == (RollupAttestation {
                    signature: final(attestation).signature,
                    ..*old(attestation)
                }) && final(attestation).signature.carries(slot) && issued(
                    *key,
                    SigningDomain::RollupAttestation,
                    final(attestation).body(),
                    slot,
                ),
            },
        },
        r is Err ==> *final(attestation) == *old(attestation),
{
    let body = attestation.canonical_body();
    let slot = match SignatureSlot::sign(key, SigningDomain::RollupAttestation, body.as_slice()) {
        Err(e) => {
            return Err(e);
        },
        Ok(s) => s,
    };
    match slot.to_sig_slot() {
        None => Err(
            SignatifError::Crypto(cat3("suite ", key.suite().as_str(), " has no core carrier slot")),
        ),
        Some(carried) => {
            attestation.install_signature(carried);
            Ok(())
        },
    }
}

/// What checking a carried signature gives: nothing, or why it is rejected.
pub open spec fn rollup_check(
    suite: Suite,
    key_id: Seq<char>,
    signature: Option<Seq<u8>>,
    body: Seq<u8>,
    anchor: KeyView,
) -> Result<(), Seq<char>> {
    let id = trimmed(key_id);
    if !is_key_id(id) {
        Err(ErrorView::Validation("bad key id `"@ + id + "`"@).text())
    } else {
        match (SlotView { suite, key_id: id, signature }).check(
            SigningDomain::RollupAttestation,
            body,
            anchor,
        ) {
            Err(e) => Err(e.text()),
            Ok(_) => Ok(()),
        }
    }
}

/// Checks a carried signature under a pinned key.
pub fn check_rollup_signature(slot: &SigSlot, body: &[u8], anchor: &PublicKey) -> (r: Result<
    (),
    String,
>)
    ensures
        match rollup_check(
            Suite::of_carrier(slot.suite),
            slot.key_id@,
            signature_view(slot.signature),
            body@,
            anchor@,
        ) {
            Ok(_) => r is Ok,
            Err(why) => r matches Err(m) && m@ == why,
        },
{
    let slot = match SignatureSlot::from_sig_slot(slot) {
        Err(e) => {
            return Err(e.to_string());
        },
        Ok(s) => s,
    };
    match slot.verify(SigningDomain::RollupAttestation, body, anchor) {
        Err(e) => Err(e.to_string()),
        Ok(()) => Ok(()),
    }
}

/// A signed roll-up passes the check under the signer's public key.
pub proof fn signed_rollups_verify(
    attestation: RollupAttestation,
    key: KeyPair,
    slot: SlotView,
)
    requires
        issued(key, SigningDomain::RollupAttestation, attestation.body(), slot),
        attestation.signature.carries(slot),
    ensures
        rollup_check(
            Suite::of_carrier(attestation.signature.suite),
            attestation.signature.key_id@,
            signature_view(attestation.signature.signature),
            attestation.body(),
            key.spec_public(),
        ) is Ok,
{
    key_ids_are_trimmed(slot.key_id);
    assert((SlotView {
        suite: Suite::of_carrier(attestation.signature.suite),
        key_id: slot.key_id,
        signature: slot.signature,
    }) == slot);
}

} // verus!
