//! Devices as signers: certificates from manufacture, slot keys per segment,
//! and commitments to local logs that a later reveal has to match.

use vstd::bytes::{spec_u64_from_le_bytes, spec_u64_to_le_bytes, u64_to_le_bytes};
use vstd::prelude::*;

use crate::bytes::{same_array, utf8};
use crate::canon::{fields, fields_are_injective, option_text};
use crate::digest::{sha256, sha256_of};
use crate::graph::{GraphView, TrustGraph};
use crate::hierarchy::{option_str, text_or_nothing};
use crate::keyring::KeyPair;
use crate::sets::{lists, texts};
use crate::sign::{canonical_fields, signing_error, slice_views, SignatureSlot, SigningDomain};
use crate::signer::{check_signer, issued, registered, signer_check};
use crate::text::{cat2, cat3, cat5, decimal, number, same_text};
use crate::{ErrorView, SignatifError};

verus! {

/// The tag of the domain of device signatures.
pub const DEVICE_DOMAIN_TAG: &'static str = "UNIDPP-SIGNATIF/DEVICE";

/// A certificate from manufacture: it binds the key of a device to the
/// commitment of its static segment.
#[derive(Debug, Clone, PartialEq, Eq)]
pub struct DeviceCertificate {
    /// The device.
    pub device: String,
    /// Its public key, in hex.
    pub device_key: String,
    /// The static segment.
    pub segment: String,
    /// The commitment of the static state.
    pub static_commitment: [u8; 32],
    /// The manufacturer.
    pub manufacturer: String,
    /// The manufacturer's signature.
    pub signature: SignatureSlot,
}

/// What a manufacturer signs.
pub open spec fn certificate_bytes(
    device: Seq<char>,
    device_key: Seq<char>,
    segment: Seq<char>,
    static_commitment: Seq<u8>,
) -> Seq<u8> {
    fields(seq![utf8(device), utf8(device_key), utf8(segment), static_commitment])
}

impl DeviceCertificate {
    /// What the manufacturer signs.
    pub open spec fn bytes(self) -> Seq<u8> {
        certificate_bytes(
            self.device@,
            self.device_key@,
            self.segment@,
            self.static_commitment@,
        )
    }

    /// What checking the signature gives.
    pub open spec fn check(self, graph: GraphView) -> Result<Seq<char>, ErrorView> {
        signer_check(
            graph,
            self.manufacturer@,
            "device manufacturer: "@,
            "manufacturer `"@ + self.manufacturer@ + "` has no such key"@,
            self.signature@,
            SigningDomain::Delegation,
            self.bytes(),
        )
    }

    fn payload(
        device: &str,
        device_key: &str,
        segment: &str,
        static_commitment: &[u8; 32],
    ) -> (r: Vec<u8>)
        ensures
            r@ == certificate_bytes(device@, device_key@, segment@, static_commitment@),
    {
        let parts: [&[u8]; 4] = [
            device.as_bytes(),
            device_key.as_bytes(),
            segment.as_bytes(),
            static_commitment.as_slice(),
        ];
        let r = canonical_fields(parts.as_slice());
        assert(slice_views(parts@) =~= seq![
            utf8(device@),
            utf8(device_key@),
            utf8(segment@),
            static_commitment@,
        ]);
        r
    }

    /// The manufacturer signs a certificate.
    pub fn issue(
        device: &str,
        device_key_hex: &str,
        segment: &str,
        static_commitment: [u8; 32],
        manufacturer: &str,
        maker_key: &KeyPair,
    ) -> (r: Result<DeviceCertificate, SignatifError>)
        ensures
            r is Ok == maker_key.slot(
                SigningDomain::Delegation,
                certificate_bytes(device@, device_key_hex@, segment@, static_commitment@),
            ) is Some,
            r matches Ok(c) ==> c.device@ == device@ && c.device_key@ == device_key_hex@
                && c.segment@ == segment@ && c.static_commitment == static_commitment
                && c.manufacturer@ == manufacturer@ && issued(
                *maker_key,
                SigningDomain::Delegation,
                c.bytes(),
                c.signature@,
            ),
            r matches Err(e) ==> e@ == signing_error(),
    {
        let payload = DeviceCertificate::payload(
            device,
            device_key_hex,
            segment,
            &static_commitment,
        );
        match SignatureSlot::sign(maker_key, SigningDomain::Delegation, payload.as_slice()) {
            Err(e) => Err(e),
            Ok(signature) => Ok(
                DeviceCertificate {
                    device: device.to_owned(),
                    device_key: device_key_hex.to_owned(),
                    segment: segment.to_owned(),
                    static_commitment,
                    manufacturer: manufacturer.to_owned(),
                    signature,
                },
            ),
        }
    }

    /// Checks the signature under the manufacturer's registered key.
    pub fn verify(&self, graph: &TrustGraph) -> (r: Result<(), SignatifError>)
        ensures
            match self.check(graph@) {
                Ok(_) => r is Ok,
                Err(f) => r matches Err(e) && e@ == f,
            },
    {
        let missing = cat3("manufacturer `", self.manufacturer.as_str(), "` has no such key");
        let payload = DeviceCertificate::payload(
            self.device.as_str(),
            self.device_key.as_str(),
            self.segment.as_str(),
            &self.static_commitment,
        );
        match check_signer(
            graph,
            self.manufacturer.as_str(),
            "device manufacturer: ",
            missing.as_str(),
            &self.signature,
            SigningDomain::Delegation,
            payload.as_slice(),
        ) {
            Err(e) => Err(e),
            Ok(_) => Ok(()),
        }
    }
}

/// A segment authority's credential for a device's slot key.
#[derive(Debug, Clone, PartialEq, Eq)]
pub struct SlotCredential {
    /// The device.
    pub device: String,
    /// The public slot key, in hex.
    pub slot_key: String,
    /// The segment that the key may sign for.
    pub segment: String,
    /// The segment authority.
    pub authority: String,
    /// The start of the validity.
    pub valid_from: String,
    /// Its end.
    pub valid_to: Option<String>,
    /// The authority's signature.
    pub signature: SignatureSlot,
}

/// What a segment authority signs.
pub open spec fn slot_bytes(
    device: Seq<char>,
    slot_key: Seq<char>,
    segment: Seq<char>,
    valid_from: Seq<char>,
    valid_to: Option<Seq<char>>,
) -> Seq<u8> {
    fields(
        seq![
            utf8(device),
            utf8(slot_key),
            utf8(segment),
            utf8(valid_from),
            utf8(text_or_nothing(valid_to)),
        ],
    )
}

impl SlotCredential {
    /// What the authority signs.
    pub open spec fn bytes(self) -> Seq<u8> {
        slot_bytes(
            self.device@,
            self.slot_key@,
            self.segment@,
            self.valid_from@,
            option_text(self.valid_to),
        )
    }

    /// What checking the signature gives.
    pub open spec fn check(self, graph: GraphView) -> Result<Seq<char>, ErrorView> {
        signer_check(
            graph,
            self.authority@,
            "slot authority: "@,
            "slot authority `"@ + self.authority@ + "` has no such key"@,
            self.signature@,
            SigningDomain::Delegation,
            self.bytes(),
        )
    }

    /// Whether the credential is for a device and a slot key.
    pub open spec fn is_for(self, device: Seq<char>, slot_key: Seq<char>) -> bool {
        self.device@ == device && self.slot_key@ == slot_key
    }

    fn payload(
        device: &str,
        slot_key: &str,
        segment: &str,
        valid_from: &str,
        valid_to: Option<&str>,
    ) -> (r: Vec<u8>)
        ensures
            r@ == slot_bytes(device@, slot_key@, segment@, valid_from@, option_str(valid_to)),
    {
        let until: &str = match valid_to {
            Some(t) => t,
            None => "",
        };
        let parts: [&[u8]; 5] = [
            device.as_bytes(),
            slot_key.as_bytes(),
            segment.as_bytes(),
            valid_from.as_bytes(),
            until.as_bytes(),
        ];
        let r = canonical_fields(parts.as_slice());
        assert(slice_views(parts@) =~= seq![
            utf8(device@),
            utf8(slot_key@),
            utf8(segment@),
            utf8(valid_from@),
            utf8(text_or_nothing(option_str(valid_to))),
        ]);
        r
    }

    /// The segment authority signs a credential.
    pub fn issue(
        device: &str,
        slot_key_hex: &str,
        segment: &str,
        authority: &str,
        valid_from: &str,
        valid_to: Option<&str>,
        authority_key: &KeyPair,
    ) -> (r: Result<SlotCredential, SignatifError>)
        ensures
            r is Ok == authority_key.slot(
                SigningDomain::Delegation,
                slot_bytes(
                    device@,
                    slot_key_hex@,
                    segment@,
                    valid_from@,
                    option_str(valid_to),
                ),
            ) is Some,
            r matches Ok(c) ==> c.device@ == device@ && c.slot_key@ == slot_key_hex@ && c.segment@
                == segment@ && c.authority@ == authority@ && c.valid_from@ == valid_from@
                && option_text(c.valid_to) == option_str(valid_to) && issued(
                *authority_key,
                SigningDomain::Delegation,
                c.bytes(),
                c.signature@,
            ),
            r matches Err(e) ==> e@ == signing_error(),
    {
        let payload = SlotCredential::payload(device, slot_key_hex, segment, valid_from, valid_to);
        match SignatureSlot::sign(authority_key, SigningDomain::Delegation, payload.as_slice()) {
            Err(e) => Err(e),
            Ok(signature) => Ok(
                SlotCredential {
                    device: device.to_owned(),
                    slot_key: slot_key_hex.to_owned(),
                    segment: segment.to_owned(),
                    authority: authority.to_owned(),
                    valid_from: valid_from.to_owned(),
                    valid_to: match valid_to {
                        Some(t) => Some(t.to_owned()),
                        None => None,
                    },
                    signature,
                },
            ),
        }
    }

    /// Checks the signature under the authority's registered key.
    pub fn verify(&self, graph: &TrustGraph) -> (r: Result<(), SignatifError>)
        ensures
            match self.check(graph@) {
                Ok(_) => r is Ok,
                Err(f) => r matches Err(e) && e@ == f,
            },
    {
        let missing = cat3("slot authority `", self.authority.as_str(), "` has no such key");
        let until: Option<&str> = match &self.valid_to {
            Some(t) => Some(t.as_str()),
            None => None,
        };
        let payload = SlotCredential::payload(
            self.device.as_str(),
            self.slot_key.as_str(),
            self.segment.as_str(),
            self.valid_from.as_str(),
            until,
        );
        match check_signer(
            graph,
            self.authority.as_str(),
            "slot authority: ",
            missing.as_str(),
            &self.signature,
            SigningDomain::Delegation,
            payload.as_slice(),
        ) {
            Err(e) => Err(e),
            Ok(_) => Ok(()),
        }
    }
}

/// The standing of a slot key for a segment.
#[derive(Debug, Clone, PartialEq, Eq)]
pub enum SlotStanding {
    /// An authority certified the key for the segment.
    Certified {
        /// The authority.
        authority: String,
    },
    /// It did, but the key was revoked.
    Revoked {
        /// The segment.
        segment: String,
        /// The slot key.
        slot_key: String,
    },
    /// There is no such credential.
    NoChain {
        /// Why.
        reason: String,
    },
}

/// A standing as a mathematical value.
#[verifier::ext_equal]
pub enum StandingView {
    /// See [`SlotStanding::Certified`].
    Certified { authority: Seq<char> },
    /// See [`SlotStanding::Revoked`].
    Revoked { segment: Seq<char>, slot_key: Seq<char> },
    /// See [`SlotStanding::NoChain`].
    NoChain { reason: Seq<char> },
}

impl View for SlotStanding {
    type V = StandingView;

    open spec fn view(&self) -> StandingView {
        match self {
            SlotStanding::Certified { authority } => StandingView::Certified {
                authority: authority@,
            },
            SlotStanding::Revoked { segment, slot_key } => StandingView::Revoked {
                segment: segment@,
                slot_key: slot_key@,
            },
            SlotStanding::NoChain { reason } => StandingView::NoChain { reason: reason@ },
        }
    }
}

/// The position of the first credential for a device and a slot key.
pub open spec fn first_credential(
    s: Seq<SlotCredential>,
    device: Seq<char>,
    slot_key: Seq<char>,
) -> Option<int>
    decreases s.len(),
{
    if s.len() == 0 {
        None
    } else {
        match first_credential(s.drop_last(), device, slot_key) {
            Some(i) => Some(i),
            None => if s.last().is_for(device, slot_key) {
                Some(s.len() - 1)
            } else {
                None
            },
        }
    }
}

proof fn lemma_first_credential(
    s: Seq<SlotCredential>,
    device: Seq<char>,
    slot_key: Seq<char>,
    k: int,
)
    requires
        0 <= k <= s.len(),
        first_credential(s.take(k), device, slot_key) is Some,
    ensures
        first_credential(s, device, slot_key) == first_credential(s.take(k), device, slot_key),
    decreases s.len() - k,
{
    if k < s.len() {
        assert(s.take(k + 1).drop_last() =~= s.take(k));
        lemma_first_credential(s, device, slot_key, k + 1);
    } else {
        assert(s.take(k) =~= s);
    }
}

proof fn lemma_credential_found(s: Seq<SlotCredential>, device: Seq<char>, slot_key: Seq<char>)
    ensures
        first_credential(s, device, slot_key) matches Some(i) ==> 0 <= i < s.len() && s[i].is_for(
            device,
            slot_key,
        ),
    decreases s.len(),
{
    if s.len() > 0 {
        lemma_credential_found(s.drop_last(), device, slot_key);
    }
}

/// The standing of a slot key for a claimed segment, given a list of
/// credentials and a list of revoked slot keys.
pub open spec fn standing(
    credentials: Seq<SlotCredential>,
    device: Seq<char>,
    slot_key: Seq<char>,
    claimed_segment: Seq<char>,
    graph: GraphView,
    revoked: Seq<Seq<char>>,
) -> StandingView {
    match first_credential(credentials, device, slot_key) {
        None => StandingView::NoChain {
            reason: "no slot credential held for `"@ + device + "`/`"@ + slot_key + "`"@,
        },
        Some(i) => {
            let c = credentials[i];
            match c.check(graph) {
                Err(e) => StandingView::NoChain {
                    reason: "the slot credential does not verify: "@ + e.text(),
                },
                Ok(_) => if c.segment@ != claimed_segment {
                    StandingView::NoChain {
                        reason: "the slot is certified for segment `"@ + c.segment@
                            + "`, not the claimed `"@ + claimed_segment + "`"@,
                    }
                } else if revoked.contains(slot_key) {
                    StandingView::Revoked { segment: c.segment@, slot_key }
                } else {
                    StandingView::Certified { authority: c.authority@ }
                },
            }
        },
    }
}

fn find_credential(credentials: &[SlotCredential], device: &str, slot_key: &str) -> (r: Option<
    usize,
>)
    ensures
        match first_credential(credentials@, device@, slot_key@) {
            None => r is None,
            Some(k) => r matches Some(i) && i == k && i < credentials@.len(),
        },
{
    let ghost all = credentials@;
    let mut i: usize = 0;
    assert(all.take(0) =~= Seq::<SlotCredential>::empty());
    while i < credentials.len()
        invariant
            i <= credentials.len(),
            all == credentials@,
            first_credential(all.take(i as int), device@, slot_key@) is None,
        decreases credentials.len() - i,
    {
        proof {
            assert(all.take(i + 1).drop_last() =~= all.take(i as int));
            assert(all.take(i + 1).last() == all[i as int]);
        }
        let c = &credentials[i];
        if same_text(c.device.as_str(), device) && same_text(c.slot_key.as_str(), slot_key) {
            proof {
                lemma_first_credential(all, device@, slot_key@, i + 1);
            }
            return Some(i);
        }
        i += 1;
    }
    assert(all.take(i as int) =~= all);
    None
}

/// The standing of a slot key for a claimed segment. Revoking a slot key ends
/// only what that key signs.
pub fn slot_standing(
    credentials: &[SlotCredential],
    device: &str,
    slot_key_hex: &str,
    claimed_segment: &str,
    graph: &TrustGraph,
    revoked_slot_keys: &[String],
) -> (r: SlotStanding)
    ensures
        r@ == standing(
            credentials@,
            device@,
            slot_key_hex@,
            claimed_segment@,
            graph@,
            texts(revoked_slot_keys@),
        ),
{
    let credential = match find_credential(credentials, device, slot_key_hex) {
        None => {
            return SlotStanding::NoChain {
                reason: cat5(
                    "no slot credential held for `",
                    device,
                    "`/`",
                    slot_key_hex,
                    "`",
                ),
            };
        },
        Some(i) => &credentials[i],
    };
    if let Err(e) = credential.verify(graph) {
        let why = e.to_string();
        return SlotStanding::NoChain {
            reason: cat2("the slot credential does not verify: ", why.as_str()),
        };
    }
    if !same_text(credential.segment.as_str(), claimed_segment) {
        return SlotStanding::NoChain {
            reason: cat5(
                "the slot is certified for segment `",
                credential.segment.as_str(),
                "`, not the claimed `",
                claimed_segment,
                "`",
            ),
        };
    }
    if lists(revoked_slot_keys, slot_key_hex) {
        return SlotStanding::Revoked {
            segment: credential.segment.clone(),
            slot_key: slot_key_hex.to_owned(),
        };
    }
    SlotStanding::Certified { authority: credential.authority.clone() }
}

/// A certified slot key has a credential that its authority signed for exactly
/// this device, key and segment, and the key is not revoked.
pub proof fn certified_slots_have_a_chain(
    credentials: Seq<SlotCredential>,
    device: Seq<char>,
    slot_key: Seq<char>,
    segment: Seq<char>,
    graph: GraphView,
    revoked: Seq<Seq<char>>,
)
    requires
        standing(credentials, device, slot_key, segment, graph, revoked) is Certified,
    ensures
        !revoked.contains(slot_key),
        exists|i: int|
            0 <= i < credentials.len() && (#[trigger] credentials[i]).is_for(device, slot_key)
                && credentials[i].segment@ == segment && credentials[i].check(graph) is Ok
                && credentials[i].authority@ == standing(
                credentials,
                device,
                slot_key,
                segment,
                graph,
                revoked,
            )->authority,
{
    lemma_credential_found(credentials, device, slot_key);
    let i = first_credential(credentials, device, slot_key).unwrap();
    assert(credentials[i].is_for(device, slot_key));
}

/// Revoking one slot key leaves the standing of every other slot key as it was.
pub proof fn revocation_is_scoped(
    credentials: Seq<SlotCredential>,
    device: Seq<char>,
    slot_key: Seq<char>,
    segment: Seq<char>,
    graph: GraphView,
    revoked: Seq<Seq<char>>,
    other: Seq<char>,
)
    requires
        other != slot_key,
    ensures
        standing(credentials, device, slot_key, segment, graph, revoked.push(other)) == standing(
            credentials,
            device,
            slot_key,
            segment,
            graph,
            revoked,
        ),
{
    let more = revoked.push(other);
    if revoked.contains(slot_key) {
        assert(more[revoked.index_of(slot_key)] == slot_key);
    }
    if more.contains(slot_key) {
        assert(revoked[more.index_of(slot_key)] == slot_key);
    }
}

/// A commitment to a prefix of a device's local log.
#[derive(Debug, Clone, PartialEq, Eq)]
pub struct EdgeCommitment {
    /// The device.
    pub device: String,
    /// The segment.
    pub segment: String,
    /// The number of events in the prefix.
    pub prefix_len: u64,
    /// The commitment to the prefix.
    pub prefix_commitment: [u8; 32],
}

/// What a commitment hashes.
pub open spec fn prefix_bytes(prefix_len: u64, state: Seq<u8>) -> Seq<u8> {
    fields(seq![spec_u64_to_le_bytes(prefix_len), state])
}

fn prefix_digest(prefix_len: u64, state: &[u8]) -> (r: [u8; 32])
    ensures
        r@ == sha256_of(prefix_bytes(prefix_len, state@)),
{
    let n = u64_to_le_bytes(prefix_len);
    let parts: [&[u8]; 2] = [n.as_slice(), state];
    let bytes = canonical_fields(parts.as_slice());
    assert(slice_views(parts@) =~= seq![spec_u64_to_le_bytes(prefix_len), state@]);
    sha256(bytes.as_slice()).0
}

impl EdgeCommitment {
    /// Commits to a prefix of the log.
    pub fn commit(device: &str, segment: &str, prefix_len: u64, prefix_state: &[u8]) -> (r:
        EdgeCommitment)
        ensures
            r.device@ == device@,
            r.segment@ == segment@,
            r.prefix_len == prefix_len,
            r.prefix_commitment@ == sha256_of(prefix_bytes(prefix_len, prefix_state@)),
            r.matches(prefix_len, prefix_state@),
    {
        EdgeCommitment {
            device: device.to_owned(),
            segment: segment.to_owned(),
            prefix_len,
            prefix_commitment: prefix_digest(prefix_len, prefix_state),
        }
    }

    /// Whether a revealed prefix is the one that was committed to.
    pub open spec fn matches(self, prefix_len: u64, state: Seq<u8>) -> bool {
        self.prefix_commitment@ == sha256_of(prefix_bytes(prefix_len, state))
    }
}

/// What came of checking a reveal.
#[derive(Debug, Clone, PartialEq, Eq)]
pub enum RevealVerdict {
    /// It is what was committed to.
    Consistent,
    /// It is not.
    Contradicted {
        /// Why.
        reason: String,
    },
}

/// Checks a reveal against a commitment.
pub fn verify_reveal(
    commitment: &EdgeCommitment,
    revealed_prefix_len: u64,
    revealed_state: &[u8],
) -> (r: RevealVerdict)
    ensures
        if commitment.matches(revealed_prefix_len, revealed_state@) {
            r is Consistent
        } else {
            r matches RevealVerdict::Contradicted { reason } && reason@ == "the reveal (prefix "@
                + decimal(revealed_prefix_len as nat)
                + ") does not recompute the prior commitment over prefix "@ + decimal(
                commitment.prefix_len as nat,
            ) + " — commit now, reveal later, never contradict"@
        },
{
    let revealed = prefix_digest(revealed_prefix_len, revealed_state);
    if same_array(&revealed, &commitment.prefix_commitment) {
        RevealVerdict::Consistent
    } else {
        let there = number(revealed_prefix_len);
        let here = number(commitment.prefix_len);
        RevealVerdict::Contradicted {
            reason: cat5(
                "the reveal (prefix ",
                there.as_str(),
                ") does not recompute the prior commitment over prefix ",
                here.as_str(),
                " — commit now, reveal later, never contradict",
            ),
        }
    }
}

/// A certificate that the manufacturer issued verifies wherever the
/// manufacturer's key is registered.
pub proof fn issued_certificates_verify(c: DeviceCertificate, key: KeyPair, graph: GraphView)
    requires
        issued(key, SigningDomain::Delegation, c.bytes(), c.signature@),
        registered(graph, c.manufacturer@, key),
    ensures
        c.check(graph) is Ok,
{
}

/// A credential that the authority issued verifies wherever the authority's key
/// is registered.
pub proof fn issued_credentials_verify(c: SlotCredential, key: KeyPair, graph: GraphView)
    requires
        issued(key, SigningDomain::Delegation, c.bytes(), c.signature@),
        registered(graph, c.authority@, key),
    ensures
        c.check(graph) is Ok,
{
}

/// A device that reveals what it committed to is consistent; two reveals that
/// are both consistent with one commitment agree, or else their bytes are a
/// collision of the hash.
pub proof fn reveals_do_not_contradict(
    commitment: EdgeCommitment,
    len: u64,
    state: Seq<u8>,
    other_len: u64,
    other_state: Seq<u8>,
)
    requires
        state.len() <= u64::MAX,
        other_state.len() <= u64::MAX,
        commitment.matches(len, state),
        commitment.matches(other_len, other_state),
    ensures
        (len == other_len && state == other_state) || (prefix_bytes(len, state) != prefix_bytes(
            other_len,
            other_state,
        ) && sha256_of(prefix_bytes(len, state)) == sha256_of(
            prefix_bytes(other_len, other_state),
        )),
{
    if prefix_bytes(len, state) == prefix_bytes(other_len, other_state) {
        let a = seq![spec_u64_to_le_bytes(len), state];
        let b = seq![spec_u64_to_le_bytes(other_len), other_state];
        vstd::bytes::lemma_auto_spec_u64_to_from_le_bytes();
        fields_are_injective(a, b);
        assert(a[0] == b[0]);
        assert(a[1] == b[1]);
        assert(spec_u64_from_le_bytes(a[0]) == len);
        assert(spec_u64_from_le_bytes(b[0]) == other_len);
    }
}

} // verus!
