//! Envelopes: one ciphertext, and the content key wrapped once per recipient.
//!
//! Each recipient's key establishment machine wraps the same content key, so
//! each recipient opens the envelope alone. All keys, nonces and ephemeral
//! secrets are derived from a seed that the caller supplies, under a label per
//! purpose and per recipient.

use vstd::prelude::*;

use crate::bytes::{append, array_of, copied, utf8};
use crate::digest::{sha256, sha256_of};
use crate::sign::{squash, squashed};
use crate::text::{
    cat2, cat3, cat5, chars_of, count, decimal, hex, hex_text, quote, quoted, same_text,
    string_of, unhex, unhex_text,
};
use crate::{ErrorView, SignatifError};

verus! {

/// The salt of every derivation.
pub const HKDF_SALT: &'static str = "UNIDPP-SIGNATIF/ENVELOPE";

/// The most bytes that AES-GCM takes as a message or as context.
pub const GCM_MAX: u64 = 0x10_0000_0000;

/// The output of HKDF with SHA-256.
pub uninterp spec fn hkdf_sha256(salt: Seq<u8>, ikm: Seq<u8>, info: Seq<u8>, len: int) -> Seq<u8>;

/// The AES-256-GCM encryption of a message under a key, a nonce and context,
/// with its tag; `None` when the message or the context is too long.
pub uninterp spec fn aes_sealed(
    key: Seq<u8>,
    nonce: Seq<u8>,
    message: Seq<u8>,
    aad: Seq<u8>,
) -> Option<Seq<u8>>;

/// The AES-256-GCM decryption of a ciphertext with its tag; `None` when it is
/// not authentic.
pub uninterp spec fn aes_opened(
    key: Seq<u8>,
    nonce: Seq<u8>,
    ciphertext: Seq<u8>,
    aad: Seq<u8>,
) -> Option<Seq<u8>>;

/// The X25519 public key of a secret.
pub uninterp spec fn x25519_public(secret: Seq<u8>) -> Seq<u8>;

/// The X25519 shared secret.
pub uninterp spec fn x25519_shared(secret: Seq<u8>, public: Seq<u8>) -> Seq<u8>;

/// The ML-KEM-768 encapsulation key of a seed.
pub uninterp spec fn mlkem_public(seed: Seq<u8>) -> Seq<u8>;

/// The ML-KEM-768 ciphertext and shared key under an encapsulation key and a
/// message; `None` when the bytes are no encapsulation key.
pub uninterp spec fn mlkem_encapsulated(key: Seq<u8>, message: Seq<u8>) -> Option<
    (Seq<u8>, Seq<u8>),
>;

/// The ML-KEM-768 shared key that a seed's decapsulation key gets from a
/// ciphertext.
pub uninterp spec fn mlkem_decapsulated(seed: Seq<u8>, ciphertext: Seq<u8>) -> Seq<u8>;

/// Trusted: `hkdf::Hkdf::<Sha256>::new` and `expand`. The output depends on the
/// arguments alone and has the length that was asked for, which is at most 255
/// digests.
#[verifier::external_body]
fn hkdf_derive(salt: &[u8], ikm: &[u8], info: &[u8], len: usize) -> (r: Vec<u8>)
    requires
        len <= 8160,
    ensures
        r@ == hkdf_sha256(salt@, ikm@, info@, len as int),
        r@.len() == len,
{
    let mut out = vec![0u8; len];
    hkdf::Hkdf::<sha2::Sha256>::new(Some(salt), ikm).expand(info, &mut out).unwrap();
    out
}

/// Trusted: `aes_gcm::Aes256Gcm::encrypt`. Whether there is a ciphertext
/// depends on the lengths alone, and which on the arguments alone.
#[verifier::external_body]
fn gcm_seal(key: &[u8; 32], nonce: &[u8; 12], message: &[u8], aad: &[u8]) -> (r: Option<Vec<u8>>)
    ensures
        r is Some == aes_sealed(key@, nonce@, message@, aad@) is Some,
        r matches Some(c) ==> Some(c@) == aes_sealed(key@, nonce@, message@, aad@),
        r is Some == (message@.len() <= GCM_MAX && aad@.len() <= GCM_MAX),
{
    let cipher = <aes_gcm::Aes256Gcm as aes_gcm::KeyInit>::new(key.into());
    let payload = aes_gcm::aead::Payload { msg: message, aad };
    aes_gcm::aead::Aead::encrypt(&cipher, nonce.into(), payload).ok()
}

/// Trusted: `aes_gcm::Aes256Gcm::decrypt`. What it gives depends on the
/// arguments alone; what was sealed under the same key, nonce and context
/// opens to the message.
#[verifier::external_body]
fn gcm_open(key: &[u8; 32], nonce: &[u8; 12], ciphertext: &[u8], aad: &[u8]) -> (r: Option<Vec<u8>>)
    ensures
        r is Some == aes_opened(key@, nonce@, ciphertext@, aad@) is Some,
        r matches Some(m) ==> Some(m@) == aes_opened(key@, nonce@, ciphertext@, aad@),
        forall|m: Seq<u8>| #[trigger]
            aes_sealed(key@, nonce@, m, aad@) == Some(ciphertext@) ==> r is Some && r->0@ == m,
{
    let cipher = <aes_gcm::Aes256Gcm as aes_gcm::KeyInit>::new(key.into());
    let payload = aes_gcm::aead::Payload { msg: ciphertext, aad };
    aes_gcm::aead::Aead::decrypt(&cipher, nonce.into(), payload).ok()
}

/// Trusted: `x25519_dalek::PublicKey::from` a `StaticSecret`. It depends on the
/// secret alone.
#[verifier::external_body]
fn x25519_public_key(secret: &[u8; 32]) -> (r: [u8; 32])
    ensures
        r@ == x25519_public(secret@),
{
    x25519_dalek::PublicKey::from(&x25519_dalek::StaticSecret::from(*secret)).to_bytes()
}

/// Trusted: `x25519_dalek::StaticSecret::diffie_hellman`. The shared secret
/// depends on the secret and the public key alone; both sides get the same.
#[verifier::external_body]
fn x25519_agree(secret: &[u8; 32], public: &[u8; 32]) -> (r: [u8; 32])
    ensures
        r@ == x25519_shared(secret@, public@),
        forall|other: Seq<u8>| #[trigger]
            x25519_public(other) == public@ && other.len() == 32 ==> r@ == x25519_shared(
                other,
                x25519_public(secret@),
            ),
{
    let secret = x25519_dalek::StaticSecret::from(*secret);
    secret.diffie_hellman(&x25519_dalek::PublicKey::from(*public)).to_bytes()
}

/// Trusted: `ml_kem::DecapsulationKey::<MlKem768>::from_seed` and the encoding
/// of its `encapsulation_key`. It depends on the seed alone.
#[verifier::external_body]
fn mlkem_public_key(seed: &[u8; 64]) -> (r: [u8; 1184])
    ensures
        r@ == mlkem_public(seed@),
{
    let key = ml_kem::DecapsulationKey::<ml_kem::MlKem768>::from_seed(ml_kem::Seed::from(*seed));
    ml_kem::KeyExport::to_bytes(key.encapsulation_key()).as_slice().try_into().unwrap()
}

/// Trusted: `ml_kem::EncapsulationKey::<MlKem768>::new_from_slice` and
/// `encapsulate_deterministic`. What it gives depends on the key and the
/// message alone.
#[verifier::external_body]
fn mlkem_encapsulate(key: &[u8; 1184], message: &[u8; 32]) -> (r: Option<([u8; 1088], [u8; 32])>)
    ensures
        r is Some == mlkem_encapsulated(key@, message@) is Some,
        r matches Some(x) ==> Some((x.0@, x.1@)) == mlkem_encapsulated(key@, message@),
{
    let key: ml_kem::EncapsulationKey<ml_kem::MlKem768> =
        ml_kem::TryKeyInit::new_from_slice(key).ok()?;
    let (ciphertext, shared) = key.encapsulate_deterministic(&ml_kem::B32::from(*message));
    Some((ciphertext.as_slice().try_into().ok()?, shared.as_slice().try_into().ok()?))
}

/// Trusted: `ml_kem::DecapsulationKey::<MlKem768>::decapsulate`. The shared key
/// depends on the seed and the ciphertext alone. That it is the key that was
/// encapsulated is not stated: ML-KEM fails to give it back for a vanishing
/// part of the inputs.
#[verifier::external_body]
fn mlkem_decapsulate(seed: &[u8; 64], ciphertext: &[u8; 1088]) -> (r: [u8; 32])
    ensures
        r@ == mlkem_decapsulated(seed@, ciphertext@),
{
    let key = ml_kem::DecapsulationKey::<ml_kem::MlKem768>::from_seed(ml_kem::Seed::from(*seed));
    let ciphertext = ml_kem::Ciphertext::<ml_kem::MlKem768>::from(*ciphertext);
    ml_kem::Decapsulate::decapsulate(&key, &ciphertext).as_slice().try_into().unwrap()
}

/// The key establishment suites.
#[derive(Debug, Clone, Copy, PartialEq, Eq, Hash, Structural)]
pub enum KemSuite {
    /// X25519 with HKDF.
    X25519,
    /// ML-KEM-768.
    MlKem768,
}

/// The suite that a text names, whatever its case and separators.
pub open spec fn kem_of_token(s: Seq<char>) -> Option<KemSuite> {
    if squashed(s) == "x25519"@ {
        Some(KemSuite::X25519)
    } else if squashed(s) == "mlkem768"@ {
        Some(KemSuite::MlKem768)
    } else {
        None
    }
}

impl KemSuite {
    /// All suites, in canonical order.
    pub const ALL: [KemSuite; 2] = [KemSuite::X25519, KemSuite::MlKem768];

    /// The token of the suite.
    pub open spec fn token(self) -> Seq<char> {
        match self {
            KemSuite::X25519 => "x25519"@,
            KemSuite::MlKem768 => "ml-kem-768"@,
        }
    }

    /// The token of the suite.
    pub fn as_str(self) -> (r: &'static str)
        ensures
            r@ == self.token(),
    {
        match self {
            KemSuite::X25519 => "x25519",
            KemSuite::MlKem768 => "ml-kem-768",
        }
    }

    /// Reads a suite token, whatever its case and separators.
    pub fn parse_token(s: &str) -> (r: Result<KemSuite, SignatifError>)
        ensures
            r is Ok == kem_of_token(s@) is Some,
            r matches Ok(k) ==> Some(k) == kem_of_token(s@),
            r matches Err(e) ==> e@ == ErrorView::Validation("unknown KEM suite `"@ + s@ + "`"@),
    {
        let t = squash(s);
        if same_text(t.as_str(), "x25519") {
            Ok(KemSuite::X25519)
        } else if same_text(t.as_str(), "mlkem768") {
            Ok(KemSuite::MlKem768)
        } else {
            Err(SignatifError::Validation(cat3("unknown KEM suite `", s, "`")))
        }
    }

    /// Whether the suite is computed here: both are.
    pub fn is_computed(self) -> (r: bool)
        ensures
            r,
    {
        match self {
            KemSuite::X25519 => true,
            KemSuite::MlKem768 => true,
        }
    }

    /// Why the suite is not computed; `None`, as both are.
    pub fn deferral(self) -> (r: Option<&'static str>)
        ensures
            r is None,
    {
        None
    }
}

/// The tokens of suites read back.
pub proof fn kem_tokens_parse_back(suite: KemSuite)
    ensures
        kem_of_token(suite.token()) == Some(suite),
{
    reveal_strlit("x25519");
    reveal_strlit("ml-kem-768");
    reveal_strlit("mlkem768");
    reveal_with_fuel(crate::sign::without_separators, 12);
    let t = suite.token();
    assert(crate::text::trimmed(t) == t);
    assert(crate::text::lowered(t) =~= t);
    assert("x25519"@.len() == 6);
    assert("mlkem768"@.len() == 8);
    let s = squashed(t);
    match suite {
        KemSuite::X25519 => {
            assert(s =~= "x25519"@);
        },
        KemSuite::MlKem768 => {
            assert(s =~= "mlkem768"@);
        },
    }
}

/// The public key of a recipient.
#[derive(Debug, Clone, Copy, PartialEq, Eq)]
pub enum KemPublicKey {
    /// An X25519 public key.
    X25519([u8; 32]),
    /// An ML-KEM-768 encapsulation key.
    MlKem768([u8; 1184]),
}

/// A recipient's public key as a mathematical value.
#[verifier::ext_equal]
pub struct KemView {
    /// The suite.
    pub suite: KemSuite,
    /// The encoding.
    pub bytes: Seq<u8>,
}

impl View for KemPublicKey {
    type V = KemView;

    open spec fn view(&self) -> KemView {
        match self {
            KemPublicKey::X25519(b) => KemView { suite: KemSuite::X25519, bytes: b@ },
            KemPublicKey::MlKem768(b) => KemView { suite: KemSuite::MlKem768, bytes: b@ },
        }
    }
}

/// The id of a recipient's key.
pub open spec fn kem_key_id(key: KemView) -> Seq<char> {
    "k-"@ + hex_text(sha256_of(utf8(key.suite.token()) + key.bytes)).take(16)
}

impl KemPublicKey {
    /// The suite.
    pub fn suite(&self) -> (r: KemSuite)
        ensures
            r == self@.suite,
    {
        match self {
            KemPublicKey::X25519(_) => KemSuite::X25519,
            KemPublicKey::MlKem768(_) => KemSuite::MlKem768,
        }
    }

    /// The encoding.
    pub fn as_bytes(&self) -> (r: &[u8])
        ensures
            r@ == self@.bytes,
    {
        match self {
            KemPublicKey::X25519(b) => b.as_slice(),
            KemPublicKey::MlKem768(b) => b.as_slice(),
        }
    }

    /// The id of the key, derived from its content.
    pub fn key_id(&self) -> (r: String)
        ensures
            r@ == kem_key_id(self@),
    {
        let mut data: Vec<u8> = Vec::new();
        append(&mut data, self.suite().as_str().as_bytes());
        append(&mut data, self.as_bytes());
        assert(data@ =~= utf8(self@.suite.token()) + self@.bytes);
        let digest = sha256(data.as_slice());
        let h = digest.hex();
        let c = chars_of(h.as_str());
        assert(c@.len() == 64);
        let short = string_of(vstd::slice::slice_subrange(c.as_slice(), 0, 16));
        assert(short@ =~= hex_text(sha256_of(data@)).take(16));
        cat2("k-", short.as_str())
    }
}

/// A derivation from key material under a label.
pub open spec fn derived(ikm: Seq<u8>, info: Seq<char>, len: int) -> Seq<u8> {
    hkdf_sha256(utf8(HKDF_SALT@), ikm, utf8(info), len)
}

fn hkdf_expand(ikm: &[u8], info: &str, len: usize) -> (r: Vec<u8>)
    requires
        len <= 8160,
    ensures
        r@ == derived(ikm@, info@, len as int),
        r@.len() == len,
{
    hkdf_derive(HKDF_SALT.as_bytes(), ikm, info.as_bytes(), len)
}

fn derive_32(ikm: &[u8], info: &str) -> (r: [u8; 32])
    ensures
        r@ == derived(ikm@, info@, 32),
{
    let v = hkdf_expand(ikm, info, 32);
    match array_of::<32>(v.as_slice()) {
        Some(a) => a,
        None => [0u8; 32],
    }
}

fn derive_12(ikm: &[u8], info: &str) -> (r: [u8; 12])
    ensures
        r@ == derived(ikm@, info@, 12),
{
    let v = hkdf_expand(ikm, info, 12);
    match array_of::<12>(v.as_slice()) {
        Some(a) => a,
        None => [0u8; 12],
    }
}

/// A clamped X25519 scalar.
pub open spec fn clamped(b: Seq<u8>) -> Seq<u8> {
    b.update(0, b[0] & 248).update(31, (b[31] & 127) | 64)
}

fn clamp_array(bytes: [u8; 32]) -> (r: [u8; 32])
    ensures
        r@ == clamped(bytes@),
{
    let mut out = bytes;
    out[0] = out[0] & 248;
    out[31] = (out[31] & 127) | 64;
    assert(out@ =~= clamped(bytes@));
    out
}

/// The secret of a recipient that seed material determines.
pub open spec fn kem_secret(suite: KemSuite, seed: Seq<u8>) -> Seq<u8> {
    match suite {
        KemSuite::X25519 => clamped(derived(seed, "recipient/x25519"@, 32)),
        KemSuite::MlKem768 => derived(seed, "recipient/ml-kem-768"@, 64),
    }
}

/// The public key of a recipient's secret.
pub open spec fn kem_public(suite: KemSuite, secret: Seq<u8>) -> KemView {
    match suite {
        KemSuite::X25519 => KemView { suite, bytes: x25519_public(secret) },
        KemSuite::MlKem768 => KemView { suite, bytes: mlkem_public(secret) },
    }
}

enum KemSecret {
    X25519([u8; 32]),
    MlKem768([u8; 64]),
}

/// A recipient's key pair. It keeps its secret to itself.
pub struct KemKeyPair {
    secret: KemSecret,
    public: KemPublicKey,
}

impl KemKeyPair {
    #[verifier::type_invariant]
    spec fn matched(self) -> bool {
        self.public@ == kem_public(self.public@.suite, self.spec_secret())
            && self.spec_secret().len() == (match self.public@.suite {
            KemSuite::X25519 => 32int,
            KemSuite::MlKem768 => 64int,
        }) && (self.secret is X25519 == (self.public@.suite == KemSuite::X25519))
    }

    /// The secret.
    pub closed spec fn spec_secret(self) -> Seq<u8> {
        match self.secret {
            KemSecret::X25519(b) => b@,
            KemSecret::MlKem768(b) => b@,
        }
    }

    /// The public key.
    pub closed spec fn spec_public(self) -> KemView {
        self.public@
    }

    /// Derives a key pair from seed material.
    pub fn seeded(suite: KemSuite, seed: &[u8]) -> (r: Result<KemKeyPair, SignatifError>)
        ensures
            r matches Ok(k) && k.spec_secret() == kem_secret(suite, seed@) && k.spec_public()
                == kem_public(suite, kem_secret(suite, seed@)),
    {
        match suite {
            KemSuite::X25519 => {
                let scalar = derive_32(seed, "recipient/x25519");
                let secret = clamp_array(scalar);
                let public = KemPublicKey::X25519(x25519_public_key(&secret));
                Ok(KemKeyPair { secret: KemSecret::X25519(secret), public })
            },
            KemSuite::MlKem768 => {
                let v = hkdf_expand(seed, "recipient/ml-kem-768", 64);
                let secret = match array_of::<64>(v.as_slice()) {
                    Some(a) => a,
                    None => [0u8; 64],
                };
                let public = KemPublicKey::MlKem768(mlkem_public_key(&secret));
                Ok(KemKeyPair { secret: KemSecret::MlKem768(secret), public })
            },
        }
    }

    /// The suite.
    pub fn suite(&self) -> (r: KemSuite)
        ensures
            r == self.spec_public().suite,
    {
        self.public.suite()
    }

    /// The public key.
    pub fn public(&self) -> (r: &KemPublicKey)
        ensures
            r@ == self.spec_public(),
    {
        &self.public
    }

    /// The pair in words: its suite and the id of its public key, and nothing
    /// of its secret.
    pub fn describe(&self) -> (r: String)
        ensures
            r@ == "KemKeyPair { suite: "@ + quoted(self.spec_public().suite.token())
                + ", public: "@ + quoted(kem_key_id(self.spec_public())) + ", .. }"@,
    {
        let suite = quote(self.public.suite().as_str());
        let id = self.public.key_id();
        let public = quote(id.as_str());
        cat5("KemKeyPair { suite: ", suite.as_str(), ", public: ", public.as_str(), ", .. }")
    }
}

/// The entropy of one envelope.
#[derive(Debug, Clone, Copy, PartialEq, Eq)]
pub struct EnvelopeSeed([u8; 32]);

impl View for EnvelopeSeed {
    type V = Seq<u8>;

    closed spec fn view(&self) -> Seq<u8> {
        self.0@
    }
}

impl EnvelopeSeed {
    /// A seed of exactly 32 bytes.
    pub fn from_bytes(bytes: &[u8]) -> (r: Result<EnvelopeSeed, SignatifError>)
        ensures
            r is Ok == (bytes@.len() == 32),
            r matches Ok(s) ==> s@ == bytes@,
            r matches Err(e) ==> e@ == ErrorView::Validation(
                "an envelope seed is exactly 32 bytes"@,
            ),
    {
        match array_of::<32>(bytes) {
            Some(b) => Ok(EnvelopeSeed(b)),
            None => Err(SignatifError::invalid("an envelope seed is exactly 32 bytes")),
        }
    }
}

/// The part of an envelope for one recipient.
#[derive(Debug, PartialEq, Eq)]
pub struct EnvelopeRecipient {
    /// The suite.
    pub kem: String,
    /// The id of the recipient's key.
    pub key_id: String,
    /// The ephemeral public key or the ciphertext, in hexadecimal.
    pub encapsulated_key: String,
    /// The wrapped content key, in hexadecimal.
    pub wrapped_key: String,
    /// The nonce of the wrap, in hexadecimal.
    pub wrap_nonce: String,
}

/// A recipient's part as a mathematical value.
#[verifier::ext_equal]
pub struct BlockView {
    /// See [`EnvelopeRecipient::kem`].
    pub kem: Seq<char>,
    /// See [`EnvelopeRecipient::key_id`].
    pub key_id: Seq<char>,
    /// See [`EnvelopeRecipient::encapsulated_key`].
    pub encapsulated_key: Seq<char>,
    /// See [`EnvelopeRecipient::wrapped_key`].
    pub wrapped_key: Seq<char>,
    /// See [`EnvelopeRecipient::wrap_nonce`].
    pub wrap_nonce: Seq<char>,
}

impl View for EnvelopeRecipient {
    type V = BlockView;

    open spec fn view(&self) -> BlockView {
        BlockView {
            kem: self.kem@,
            key_id: self.key_id@,
            encapsulated_key: self.encapsulated_key@,
            wrapped_key: self.wrapped_key@,
            wrap_nonce: self.wrap_nonce@,
        }
    }
}

/// An envelope.
#[derive(Debug, PartialEq, Eq)]
pub struct Envelope {
    /// The cipher.
    pub cipher: String,
    /// The nonce, in hexadecimal.
    pub nonce: String,
    /// The ciphertext with its tag, in hexadecimal.
    pub ciphertext: String,
    /// The context, authenticated and readable, in hexadecimal.
    pub aad: String,
    /// The parts of the recipients.
    pub recipients: Vec<EnvelopeRecipient>,
}

/// An envelope as a mathematical value.
#[verifier::ext_equal]
pub struct EnvelopeView {
    /// See [`Envelope::cipher`].
    pub cipher: Seq<char>,
    /// See [`Envelope::nonce`].
    pub nonce: Seq<char>,
    /// See [`Envelope::ciphertext`].
    pub ciphertext: Seq<char>,
    /// See [`Envelope::aad`].
    pub aad: Seq<char>,
    /// See [`Envelope::recipients`].
    pub recipients: Seq<BlockView>,
}

/// The parts of a list as mathematical values.
pub open spec fn block_views(s: Seq<EnvelopeRecipient>) -> Seq<BlockView> {
    s.map_values(|b: EnvelopeRecipient| b@)
}

impl View for Envelope {
    type V = EnvelopeView;

    open spec fn view(&self) -> EnvelopeView {
        EnvelopeView {
            cipher: self.cipher@,
            nonce: self.nonce@,
            ciphertext: self.ciphertext@,
            aad: self.aad@,
            recipients: block_views(self.recipients@),
        }
    }
}

impl Clone for EnvelopeRecipient {
    fn clone(&self) -> (r: EnvelopeRecipient)
        ensures
            r@ == self@,
    {
        EnvelopeRecipient {
            kem: self.kem.clone(),
            key_id: self.key_id.clone(),
            encapsulated_key: self.encapsulated_key.clone(),
            wrapped_key: self.wrapped_key.clone(),
            wrap_nonce: self.wrap_nonce.clone(),
        }
    }
}

impl Clone for Envelope {
    fn clone(&self) -> (r: Envelope)
        ensures
            r@ == self@,
    {
        let ghost all = block_views(self.recipients@);
        let mut recipients: Vec<EnvelopeRecipient> = Vec::new();
        let mut i: usize = 0;
        assert(block_views(recipients@) =~= all.take(0));
        while i < self.recipients.len()
            invariant
                i <= self.recipients.len(),
                all == block_views(self.recipients@),
                block_views(recipients@) == all.take(i as int),
            decreases self.recipients.len() - i,
        {
            let ghost before = block_views(recipients@);
            let b = self.recipients[i].clone();
            recipients.push(b);
            assert(block_views(recipients@) =~= before.push(all[i as int]));
            assert(before.push(all[i as int]) =~= all.take(i + 1));
            i += 1;
        }
        assert(all.take(i as int) =~= all);
        Envelope {
            cipher: self.cipher.clone(),
            nonce: self.nonce.clone(),
            ciphertext: self.ciphertext.clone(),
            aad: self.aad.clone(),
            recipients,
        }
    }
}

/// The first part with a key id.
pub open spec fn block_for(blocks: Seq<BlockView>, key_id: Seq<char>) -> Option<BlockView>
    decreases blocks.len(),
{
    if blocks.len() == 0 {
        None
    } else {
        match block_for(blocks.drop_last(), key_id) {
            Some(b) => Some(b),
            None => if blocks.last().key_id == key_id {
                Some(blocks.last())
            } else {
                None
            },
        }
    }
}

proof fn lemma_block_for(blocks: Seq<BlockView>, key_id: Seq<char>, k: int)
    requires
        0 <= k <= blocks.len(),
        block_for(blocks.take(k), key_id) is Some,
    ensures
        block_for(blocks, key_id) == block_for(blocks.take(k), key_id),
    decreases blocks.len() - k,
{
    if k < blocks.len() {
        assert(blocks.take(k + 1).drop_last() =~= blocks.take(k));
        lemma_block_for(blocks, key_id, k + 1);
    } else {
        assert(blocks.take(k) =~= blocks);
    }
}

proof fn lemma_no_block(blocks: Seq<BlockView>, key_id: Seq<char>)
    requires
        forall|j: int| 0 <= j < blocks.len() ==> (#[trigger] blocks[j]).key_id != key_id,
    ensures
        block_for(blocks, key_id) is None,
    decreases blocks.len(),
{
    if blocks.len() > 0 {
        let short = blocks.drop_last();
        assert forall|j: int| 0 <= j < short.len() implies (#[trigger] short[j]).key_id
            != key_id by {
            assert(short[j] == blocks[j]);
        }
        lemma_no_block(short, key_id);
        assert(blocks[blocks.len() - 1].key_id != key_id);
    }
}

impl Envelope {
    /// The part for a key id.
    pub fn recipient(&self, key_id: &str) -> (r: Option<&EnvelopeRecipient>)
        ensures
            r is Some == block_for(self@.recipients, key_id@) is Some,
            r matches Some(b) ==> Some(b@) == block_for(self@.recipients, key_id@),
    {
        let ghost all = self@.recipients;
        let mut i: usize = 0;
        assert(all.take(0) =~= Seq::<BlockView>::empty());
        while i < self.recipients.len()
            invariant
                i <= self.recipients.len(),
                all == self@.recipients,
                block_for(all.take(i as int), key_id@) is None,
            decreases self.recipients.len() - i,
        {
            proof {
                assert(all.take(i + 1).drop_last() =~= all.take(i as int));
                assert(all.take(i + 1).last() == self.recipients@[i as int]@);
            }
            if same_text(self.recipients[i].key_id.as_str(), key_id) {
                proof {
                    lemma_block_for(all, key_id@, i + 1);
                }
                return Some(&self.recipients[i]);
            }
            i += 1;
        }
        assert(all.take(i as int) =~= all);
        None
    }
}

/// What a wrap holds: the encapsulated key, the wrapped key and the nonce.
#[verifier::ext_equal]
pub struct WrapView {
    /// The ephemeral public key or the ciphertext.
    pub encapsulated_key: Seq<u8>,
    /// The wrapped content key.
    pub wrapped_key: Seq<u8>,
    /// The nonce.
    pub wrap_nonce: Seq<u8>,
}

/// The ephemeral X25519 secret of a recipient's position.
pub open spec fn ephemeral(seed: Seq<u8>, index: nat) -> Seq<u8> {
    clamped(derived(seed, "ephemeral/x25519/"@ + decimal(index), 32))
}

/// The ML-KEM message of a recipient's position.
pub open spec fn mlkem_message(seed: Seq<u8>, index: nat) -> Seq<u8> {
    derived(seed, "mlkem-m/"@ + decimal(index), 32)
}

/// The key that wraps, from an X25519 shared secret.
pub open spec fn x25519_kek(shared: Seq<u8>, ephemeral_public: Seq<u8>, public: Seq<u8>) -> Seq<
    u8,
> {
    derived(shared + ephemeral_public + public, "x25519"@, 32)
}

/// The key that wraps, from an ML-KEM shared key.
pub open spec fn mlkem_kek(shared: Seq<u8>) -> Seq<u8> {
    derived(shared, "ml-kem-768"@, 32)
}

/// The encapsulated key and the wrapping key for a recipient at a position.
pub open spec fn encapsulation(key: KemView, index: nat, seed: Seq<u8>) -> Result<
    (Seq<u8>, Seq<u8>),
    ErrorView,
> {
    match key.suite {
        KemSuite::X25519 => {
            let own = x25519_public(ephemeral(seed, index));
            Ok(
                (
                    own,
                    x25519_kek(x25519_shared(ephemeral(seed, index), key.bytes), own, key.bytes),
                ),
            )
        },
        KemSuite::MlKem768 => match mlkem_encapsulated(key.bytes, mlkem_message(seed, index)) {
            None => Err(ErrorView::Crypto("bad ML-KEM-768 encapsulation key"@)),
            Some(x) => Ok((x.0, mlkem_kek(x.1))),
        },
    }
}

/// The wrap of the content key for a recipient at a position.
pub open spec fn wrap_of(key: KemView, index: nat, content_key: Seq<u8>, seed: Seq<u8>) -> Result<
    WrapView,
    ErrorView,
> {
    let wrap_nonce = derived(seed, "wrap-nonce/"@ + decimal(index), 12);
    match encapsulation(key, index, seed) {
        Err(e) => Err(e),
        Ok(x) => match aes_sealed(x.1, wrap_nonce, content_key, utf8(kem_key_id(key))) {
            None => Err(ErrorView::Crypto("payload-key wrap failed"@)),
            Some(wrapped_key) => Ok(
                WrapView { encapsulated_key: x.0, wrapped_key, wrap_nonce },
            ),
        },
    }
}

/// Whether the outside values of a wrap have the sizes that they come in.
pub open spec fn wrap_sized(key: KemView, index: nat, seed: Seq<u8>) -> bool {
    &&& derived(seed, "wrap-nonce/"@ + decimal(index), 12).len() == 12
    &&& match key.suite {
        KemSuite::X25519 => derived(seed, "ephemeral/x25519/"@ + decimal(index), 32).len() == 32
            && x25519_public(ephemeral(seed, index)).len() == 32,
        KemSuite::MlKem768 => mlkem_encapsulated(key.bytes, mlkem_message(seed, index)) matches Some(
            x,
        ) && x.0.len() == 1088,
    }
}

struct Wrap {
    encapsulated_key: Vec<u8>,
    wrapped_key: Vec<u8>,
    wrap_nonce: [u8; 12],
}

/// Wraps the content key for a recipient.
fn wrap_for(recipient: &KemPublicKey, index: usize, payload_key: &[u8; 32], seed: &EnvelopeSeed) -> (r:
    Result<Wrap, SignatifError>)
    ensures
        match wrap_of(recipient@, index as nat, payload_key@, seed@) {
            Ok(w) => r matches Ok(x) && x.encapsulated_key@ == w.encapsulated_key
                && x.wrapped_key@ == w.wrapped_key && x.wrap_nonce@ == w.wrap_nonce,
            Err(f) => r matches Err(e) && e@ == f,
        },
        r is Ok ==> wrap_sized(recipient@, index as nat, seed@),
{
    let n = count(index);
    let label = cat2("wrap-nonce/", n.as_str());
    let wrap_nonce = derive_12(seed.0.as_slice(), label.as_str());
    let id = recipient.key_id();
    let (encapsulated_key, kek) = match recipient {
        KemPublicKey::X25519(public) => {
            let label = cat2("ephemeral/x25519/", n.as_str());
            let scalar = derive_32(seed.0.as_slice(), label.as_str());
            let secret = clamp_array(scalar);
            let own = x25519_public_key(&secret);
            let shared = x25519_agree(&secret, public);
            let mut ikm = copied(shared.as_slice());
            append(&mut ikm, own.as_slice());
            append(&mut ikm, public.as_slice());
            (copied(own.as_slice()), derive_32(ikm.as_slice(), "x25519"))
        },
        KemPublicKey::MlKem768(public) => {
            let label = cat2("mlkem-m/", n.as_str());
            let message = derive_32(seed.0.as_slice(), label.as_str());
            match mlkem_encapsulate(public, &message) {
                None => {
                    return Err(SignatifError::crypto("bad ML-KEM-768 encapsulation key"));
                },
                Some((ciphertext, shared)) => (
                    copied(ciphertext.as_slice()),
                    derive_32(shared.as_slice(), "ml-kem-768"),
                ),
            }
        },
    };
    match gcm_seal(&kek, &wrap_nonce, payload_key.as_slice(), id.as_str().as_bytes()) {
        None => Err(SignatifError::crypto("payload-key wrap failed")),
        Some(wrapped_key) => Ok(Wrap { encapsulated_key, wrapped_key, wrap_nonce }),
    }
}

/// The part of an envelope that holds a wrap.
pub open spec fn block_of(key: KemView, w: WrapView) -> BlockView {
    BlockView {
        kem: key.suite.token(),
        key_id: kem_key_id(key),
        encapsulated_key: hex_text(w.encapsulated_key),
        wrapped_key: hex_text(w.wrapped_key),
        wrap_nonce: hex_text(w.wrap_nonce),
    }
}

/// The parts for recipients, or the first error.
pub open spec fn blocks_of(keys: Seq<KemView>, content_key: Seq<u8>, seed: Seq<u8>) -> Result<
    Seq<BlockView>,
    ErrorView,
>
    decreases keys.len(),
{
    if keys.len() == 0 {
        Ok(Seq::empty())
    } else {
        match blocks_of(keys.drop_last(), content_key, seed) {
            Err(e) => Err(e),
            Ok(before) => match wrap_of(
                keys.last(),
                (keys.len() - 1) as nat,
                content_key,
                seed,
            ) {
                Err(e) => Err(e),
                Ok(w) => Ok(before.push(block_of(keys.last(), w))),
            },
        }
    }
}

proof fn lemma_blocks_error(keys: Seq<KemView>, content_key: Seq<u8>, seed: Seq<u8>, k: int)
    requires
        0 <= k <= keys.len(),
        blocks_of(keys.take(k), content_key, seed) is Err,
    ensures
        blocks_of(keys, content_key, seed) == blocks_of(keys.take(k), content_key, seed),
    decreases keys.len() - k,
{
    if k < keys.len() {
        assert(keys.take(k + 1).drop_last() =~= keys.take(k));
        lemma_blocks_error(keys, content_key, seed, k + 1);
    } else {
        assert(keys.take(k) =~= keys);
    }
}

/// The recipients of a list as mathematical values.
pub open spec fn kem_views(s: Seq<KemPublicKey>) -> Seq<KemView> {
    s.map_values(|k: KemPublicKey| k@)
}

/// The envelope of a payload for recipients under a seed.
pub open spec fn envelope_of(
    payload: Seq<u8>,
    aad: Seq<u8>,
    recipients: Seq<KemView>,
    seed: Seq<u8>,
) -> Result<EnvelopeView, ErrorView> {
    let content_key = derived(seed, "content-key"@, 32);
    let nonce = derived(seed, "content-nonce"@, 12);
    if recipients.len() == 0 {
        Err(ErrorView::Validation("an envelope needs at least one recipient"@))
    } else {
        match aes_sealed(content_key, nonce, payload, aad) {
            None => Err(ErrorView::Crypto("content encryption failed"@)),
            Some(ciphertext) => match blocks_of(recipients, content_key, seed) {
                Err(e) => Err(e),
                Ok(blocks) => Ok(
                    EnvelopeView {
                        cipher: "aes-256-gcm"@,
                        nonce: hex_text(nonce),
                        ciphertext: hex_text(ciphertext),
                        aad: hex_text(aad),
                        recipients: blocks,
                    },
                ),
            },
        }
    }
}

/// Whether an envelope was sealed from a payload for recipients.
pub open spec fn sealed(
    envelope: EnvelopeView,
    payload: Seq<u8>,
    aad: Seq<u8>,
    recipients: Seq<KemView>,
    seed: Seq<u8>,
) -> bool {
    &&& envelope_of(payload, aad, recipients, seed) == Ok::<EnvelopeView, ErrorView>(envelope)
    &&& derived(seed, "content-key"@, 32).len() == 32
    &&& derived(seed, "content-nonce"@, 12).len() == 12
    &&& forall|j: int|
        0 <= j < recipients.len() ==> wrap_sized(#[trigger] recipients[j], j as nat, seed)
}

/// Seals a payload for recipients: it is encrypted once, and its key is
/// wrapped once per recipient.
pub fn envelope_encrypt(
    payload: &[u8],
    aad: &[u8],
    recipients: &[KemPublicKey],
    seed: &EnvelopeSeed,
) -> (r: Result<Envelope, SignatifError>)
    ensures
        match envelope_of(payload@, aad@, kem_views(recipients@), seed@) {
            Ok(v) => r matches Ok(e) && e@ == v,
            Err(f) => r matches Err(e) && e@ == f,
        },
        r matches Ok(e) ==> sealed(e@, payload@, aad@, kem_views(recipients@), seed@),
{
    let ghost all = kem_views(recipients@);
    assert(all.len() == recipients@.len());
    if recipients.len() == 0 {
        return Err(SignatifError::invalid("an envelope needs at least one recipient"));
    }
    let payload_key = derive_32(seed.0.as_slice(), "content-key");
    let content_nonce = derive_12(seed.0.as_slice(), "content-nonce");
    let ciphertext = match gcm_seal(&payload_key, &content_nonce, payload, aad) {
        None => {
            return Err(SignatifError::crypto("content encryption failed"));
        },
        Some(c) => c,
    };
    let mut blocks: Vec<EnvelopeRecipient> = Vec::new();
    let mut i: usize = 0;
    assert(all.take(0) =~= Seq::<KemView>::empty());
    assert(block_views(blocks@) =~= Seq::<BlockView>::empty());
    while i < recipients.len()
        invariant
            i <= recipients.len(),
            all == kem_views(recipients@),
            blocks_of(all.take(i as int), payload_key@, seed@) == Ok::<
                Seq<BlockView>,
                ErrorView,
            >(block_views(blocks@)),
            forall|j: int| 0 <= j < i ==> wrap_sized(#[trigger] all[j], j as nat, seed@),
            recipients.len() > 0,
            payload_key@ == derived(seed@, "content-key"@, 32),
            content_nonce@ == derived(seed@, "content-nonce"@, 12),
            aes_sealed(payload_key@, content_nonce@, payload@, aad@) == Some(ciphertext@),
        decreases recipients.len() - i,
    {
        proof {
            assert(all.take(i + 1).drop_last() =~= all.take(i as int));
            assert(all.take(i + 1).last() == recipients@[i as int]@);
        }
        match wrap_for(&recipients[i], i, &payload_key, seed) {
            Err(e) => {
                proof {
                    lemma_blocks_error(all, payload_key@, seed@, i + 1);
                }
                return Err(e);
            },
            Ok(wrap) => {
                let ghost before = block_views(blocks@);
                let block = EnvelopeRecipient {
                    kem: recipients[i].suite().as_str().to_owned(),
                    key_id: recipients[i].key_id(),
                    encapsulated_key: hex(wrap.encapsulated_key.as_slice()),
                    wrapped_key: hex(wrap.wrapped_key.as_slice()),
                    wrap_nonce: hex(wrap.wrap_nonce.as_slice()),
                };
                blocks.push(block);
                assert(block_views(blocks@) =~= before.push(block@));
            },
        }
        i += 1;
    }
    assert(all.take(i as int) =~= all);
    Ok(
        Envelope {
            cipher: "aes-256-gcm".to_owned(),
            nonce: hex(content_nonce.as_slice()),
            ciphertext: hex(ciphertext.as_slice()),
            aad: hex(aad),
            recipients: blocks,
        },
    )
}

/// The key that a recipient gets out of an encapsulated key.
pub open spec fn decapsulation(key: KemView, secret: Seq<u8>, encapsulated: Seq<u8>) -> Result<
    Seq<u8>,
    ErrorView,
> {
    match key.suite {
        KemSuite::X25519 => if encapsulated.len() == 32 {
            Ok(x25519_kek(x25519_shared(secret, encapsulated), encapsulated, key.bytes))
        } else {
            Err(ErrorView::Crypto("x25519 wrap carries a 32-byte ephemeral key"@))
        },
        KemSuite::MlKem768 => if encapsulated.len() == 1088 {
            Ok(mlkem_kek(mlkem_decapsulated(secret, encapsulated)))
        } else {
            Err(ErrorView::Crypto("ml-kem-768 wrap carries a 1088-byte ciphertext"@))
        },
    }
}

/// The bytes of a nonce in hexadecimal: there must be 12.
pub open spec fn nonce_in(text: Seq<char>) -> Option<Seq<u8>> {
    match unhex_text(text) {
        Some(b) => if b.len() == 12 {
            Some(b)
        } else {
            None
        },
        None => None,
    }
}

/// The content key that a recipient unwraps.
pub open spec fn unwrapped(key: KemView, secret: Seq<u8>, block: BlockView) -> Result<
    Seq<u8>,
    ErrorView,
> {
    match nonce_in(block.wrap_nonce) {
        None => Err(ErrorView::Crypto("bad wrap nonce hex"@)),
        Some(nonce) => match unhex_text(block.wrapped_key) {
            None => Err(ErrorView::Crypto("bad wrapped key hex"@)),
            Some(wrapped) => match unhex_text(block.encapsulated_key) {
                None => Err(ErrorView::Crypto("bad encapsulated key hex"@)),
                Some(encapsulated) => match decapsulation(key, secret, encapsulated) {
                    Err(e) => Err(e),
                    Ok(kek) => match aes_opened(kek, nonce, wrapped, utf8(block.key_id)) {
                        None => Err(
                            ErrorView::Crypto(
                                "wrap authentication failed (wrong key or tampered wrap)"@,
                            ),
                        ),
                        Some(plain) => if plain.len() == 32 {
                            Ok(plain)
                        } else {
                            Err(ErrorView::Crypto("unwrapped payload key is not 32 bytes"@))
                        },
                    },
                },
            },
        },
    }
}

/// The payload that a recipient gets out of an envelope.
pub open spec fn opened(envelope: EnvelopeView, key: KemView, secret: Seq<u8>) -> Result<
    Seq<u8>,
    ErrorView,
> {
    match block_for(envelope.recipients, kem_key_id(key)) {
        None => Err(
            ErrorView::Crypto(
                "the envelope carries no wrap for recipient "@ + kem_key_id(key),
            ),
        ),
        Some(block) => match kem_of_token(block.kem) {
            None => Err(ErrorView::Validation("unknown KEM suite `"@ + block.kem + "`"@)),
            Some(suite) => if suite != key.suite {
                Err(
                    ErrorView::Crypto(
                        "wrap is `"@ + block.kem + "` but the recipient key is `"@
                            + key.suite.token() + "`"@,
                    ),
                )
            } else {
                match unwrapped(key, secret, block) {
                    Err(e) => Err(e),
                    Ok(content_key) => match nonce_in(envelope.nonce) {
                        None => Err(ErrorView::Crypto("bad content nonce hex"@)),
                        Some(nonce) => match unhex_text(envelope.aad) {
                            None => Err(ErrorView::Crypto("bad aad hex"@)),
                            Some(aad) => match unhex_text(envelope.ciphertext) {
                                None => Err(ErrorView::Crypto("bad ciphertext hex"@)),
                                Some(ciphertext) => match aes_opened(
                                    content_key,
                                    nonce,
                                    ciphertext,
                                    aad,
                                ) {
                                    None => Err(
                                        ErrorView::Crypto(
                                            "envelope authentication failed (tampered ciphertext, aad, or tag)"@,
                                        ),
                                    ),
                                    Some(payload) => Ok(payload),
                                },
                            },
                        },
                    },
                }
            },
        },
    }
}

fn read_nonce(text: &str, bad: &str) -> (r: Result<[u8; 12], SignatifError>)
    ensures
        match nonce_in(text@) {
            Some(b) => r matches Ok(n) && n@ == b,
            None => r matches Err(e) && e@ == ErrorView::Crypto(bad@),
        },
{
    match unhex(text) {
        None => Err(SignatifError::crypto(bad)),
        Some(v) => match array_of::<12>(v.as_slice()) {
            None => Err(SignatifError::crypto(bad)),
            Some(n) => Ok(n),
        },
    }
}

fn read_bytes(text: &str, bad: &str) -> (r: Result<Vec<u8>, SignatifError>)
    ensures
        match unhex_text(text@) {
            Some(b) => r matches Ok(v) && v@ == b,
            None => r matches Err(e) && e@ == ErrorView::Crypto(bad@),
        },
{
    match unhex(text) {
        None => Err(SignatifError::crypto(bad)),
        Some(v) => Ok(v),
    }
}

/// Whether a recipient's secret gives back the ML-KEM key that was
/// encapsulated for a position; for X25519 it always does.
pub open spec fn kem_agrees(key: KemView, secret: Seq<u8>, index: nat, seed: Seq<u8>) -> bool {
    key.suite == KemSuite::MlKem768 ==> (mlkem_encapsulated(
        key.bytes,
        mlkem_message(seed, index),
    ) matches Some(x) && mlkem_decapsulated(secret, x.0) == x.1)
}

/// Whether a part was wrapped for a recipient at a position, with a content
/// key, and the recipient's secret agrees.
pub open spec fn wrapped_for(
    block: BlockView,
    key: KemView,
    secret: Seq<u8>,
    index: nat,
    content_key: Seq<u8>,
    seed: Seq<u8>,
) -> bool {
    &&& wrap_of(key, index, content_key, seed) matches Ok(w) && block == block_of(key, w)
    &&& wrap_sized(key, index, seed)
    &&& content_key.len() == 32
    &&& kem_agrees(key, secret, index, seed)
}

/// The key that a recipient gets out of an encapsulated key. It is the key
/// that was encapsulated for the recipient.
fn decapsulate(recipient: &KemKeyPair, encapsulated: &[u8]) -> (r: Result<
    [u8; 32],
    SignatifError,
>)
    ensures
        match decapsulation(recipient.spec_public(), recipient.spec_secret(), encapsulated@) {
            Ok(k) => r matches Ok(a) && a@ == k,
            Err(f) => r matches Err(e) && e@ == f,
        },
        forall|index: nat, seed: Seq<u8>|
            (#[trigger] encapsulation(recipient.spec_public(), index, seed) matches Ok(x) && x.0
                == encapsulated@) && wrap_sized(recipient.spec_public(), index, seed)
                && kem_agrees(recipient.spec_public(), recipient.spec_secret(), index, seed)
                ==> r is Ok && r->Ok_0@ == encapsulation(
                recipient.spec_public(),
                index,
                seed,
            )->Ok_0.1,
{
    proof {
        use_type_invariant(recipient);
    }
    match &recipient.secret {
        KemSecret::X25519(secret) => match array_of::<32>(encapsulated) {
            None => Err(SignatifError::crypto("x25519 wrap carries a 32-byte ephemeral key")),
            Some(own) => {
                let shared = x25519_agree(secret, &own);
                let mut ikm = copied(shared.as_slice());
                append(&mut ikm, encapsulated);
                append(&mut ikm, recipient.public.as_bytes());
                Ok(derive_32(ikm.as_slice(), "x25519"))
            },
        },
        KemSecret::MlKem768(seed) => match array_of::<1088>(encapsulated) {
            None => Err(SignatifError::crypto("ml-kem-768 wrap carries a 1088-byte ciphertext")),
            Some(ciphertext) => {
                let shared = mlkem_decapsulate(seed, &ciphertext);
                Ok(derive_32(shared.as_slice(), "ml-kem-768"))
            },
        },
    }
}

/// Unwraps the content key. What was wrapped for the recipient is unwrapped.
fn unwrap_for(recipient: &KemKeyPair, block: &EnvelopeRecipient) -> (r: Result<
    [u8; 32],
    SignatifError,
>)
    ensures
        match unwrapped(recipient.spec_public(), recipient.spec_secret(), block@) {
            Ok(k) => r matches Ok(a) && a@ == k,
            Err(f) => r matches Err(e) && e@ == f,
        },
        forall|index: nat, content_key: Seq<u8>, seed: Seq<u8>| #[trigger]
            wrapped_for(
                block@,
                recipient.spec_public(),
                recipient.spec_secret(),
                index,
                content_key,
                seed,
            ) ==> r is Ok && r->Ok_0@ == content_key,
{
    let ghost key = recipient.spec_public();
    proof {
        assert forall|index: nat, content_key: Seq<u8>, seed: Seq<u8>| #[trigger]
            wrapped_for(
                block@,
                key,
                recipient.spec_secret(),
                index,
                content_key,
                seed,
            ) implies ({
            let w = wrap_of(key, index, content_key, seed)->Ok_0;
            &&& nonce_in(block@.wrap_nonce) == Some(w.wrap_nonce)
            &&& unhex_text(block@.wrapped_key) == Some(w.wrapped_key)
            &&& unhex_text(block@.encapsulated_key) == Some(w.encapsulated_key)
        }) by {
            let w = wrap_of(key, index, content_key, seed)->Ok_0;
            crate::text::unhex_inverts_hex(w.wrap_nonce);
            crate::text::unhex_inverts_hex(w.wrapped_key);
            crate::text::unhex_inverts_hex(w.encapsulated_key);
        }
    }
    let nonce = match read_nonce(block.wrap_nonce.as_str(), "bad wrap nonce hex") {
        Err(e) => {
            return Err(e);
        },
        Ok(n) => n,
    };
    let wrapped = match read_bytes(block.wrapped_key.as_str(), "bad wrapped key hex") {
        Err(e) => {
            return Err(e);
        },
        Ok(w) => w,
    };
    let encapsulated = match read_bytes(
        block.encapsulated_key.as_str(),
        "bad encapsulated key hex",
    ) {
        Err(e) => {
            return Err(e);
        },
        Ok(w) => w,
    };
    let kek = match decapsulate(recipient, encapsulated.as_slice()) {
        Err(e) => {
            return Err(e);
        },
        Ok(k) => k,
    };
    match gcm_open(&kek, &nonce, wrapped.as_slice(), block.key_id.as_str().as_bytes()) {
        None => Err(
            SignatifError::crypto("wrap authentication failed (wrong key or tampered wrap)"),
        ),
        Some(plain) => match array_of::<32>(plain.as_slice()) {
            None => Err(SignatifError::crypto("unwrapped payload key is not 32 bytes")),
            Some(k) => Ok(k),
        },
    }
}

/// Whether an envelope was sealed for a recipient that holds a secret, and is
/// the first to have its key id.
pub open spec fn addressed(
    envelope: EnvelopeView,
    payload: Seq<u8>,
    aad: Seq<u8>,
    recipients: Seq<KemView>,
    seed: Seq<u8>,
    index: int,
    key: KemView,
    secret: Seq<u8>,
) -> bool {
    &&& sealed(envelope, payload, aad, recipients, seed)
    &&& 0 <= index < recipients.len()
    &&& recipients[index] == key
    &&& forall|j: int|
        0 <= j < index ==> kem_key_id(#[trigger] recipients[j]) != kem_key_id(key)
    &&& kem_agrees(key, secret, index as nat, seed)
}

proof fn lemma_blocks(keys: Seq<KemView>, content_key: Seq<u8>, seed: Seq<u8>, k: int)
    requires
        blocks_of(keys, content_key, seed) is Ok,
        0 <= k < keys.len(),
    ensures
        blocks_of(keys, content_key, seed)->Ok_0.len() == keys.len(),
        wrap_of(keys[k], k as nat, content_key, seed) matches Ok(w) && blocks_of(
            keys,
            content_key,
            seed,
        )->Ok_0[k] == block_of(keys[k], w),
    decreases keys.len(),
{
    reveal_with_fuel(blocks_of, 2);
    let short = keys.drop_last();
    if short.len() > 0 {
        if k < short.len() {
            lemma_blocks(short, content_key, seed, k);
            assert(short[k] == keys[k]);
        } else {
            lemma_blocks(short, content_key, seed, 0);
        }
    }
}

proof fn lemma_addressed_block(
    keys: Seq<KemView>,
    content_key: Seq<u8>,
    seed: Seq<u8>,
    index: int,
)
    requires
        blocks_of(keys, content_key, seed) is Ok,
        0 <= index < keys.len(),
        forall|j: int|
            0 <= j < index ==> kem_key_id(#[trigger] keys[j]) != kem_key_id(keys[index]),
    ensures
        wrap_of(keys[index], index as nat, content_key, seed) is Ok,
        block_for(blocks_of(keys, content_key, seed)->Ok_0, kem_key_id(keys[index])) == Some(
            block_of(keys[index], wrap_of(keys[index], index as nat, content_key, seed)->Ok_0),
        ),
{
    let blocks = blocks_of(keys, content_key, seed)->Ok_0;
    let id = kem_key_id(keys[index]);
    lemma_blocks(keys, content_key, seed, index);
    let before = blocks.take(index);
    assert forall|j: int| 0 <= j < before.len() implies (#[trigger] before[j]).key_id != id by {
        lemma_blocks(keys, content_key, seed, j);
        assert(kem_key_id(keys[j]) != id);
    }
    lemma_no_block(before, id);
    let upto = blocks.take(index + 1);
    assert(upto.drop_last() =~= before);
    assert(upto.last() == blocks[index]);
    lemma_block_for(blocks, id, index + 1);
}

/// Opens an envelope for a recipient. What was sealed for the recipient opens
/// to the payload.
pub fn envelope_open(envelope: &Envelope, recipient: &KemKeyPair) -> (r: Result<
    Vec<u8>,
    SignatifError,
>)
    ensures
        match opened(envelope@, recipient.spec_public(), recipient.spec_secret()) {
            Ok(p) => r matches Ok(v) && v@ == p,
            Err(f) => r matches Err(e) && e@ == f,
        },
        forall|
            payload: Seq<u8>,
            aad: Seq<u8>,
            recipients: Seq<KemView>,
            seed: Seq<u8>,
            index: int,
        | #[trigger]
            addressed(
                envelope@,
                payload,
                aad,
                recipients,
                seed,
                index,
                recipient.spec_public(),
                recipient.spec_secret(),
            ) ==> r is Ok && r->Ok_0@ == payload,
{
    let ghost key = recipient.spec_public();
    let ghost secret = recipient.spec_secret();
    proof {
        kem_tokens_parse_back(key.suite);
        assert forall|
            payload: Seq<u8>,
            aad: Seq<u8>,
            recipients: Seq<KemView>,
            seed: Seq<u8>,
            index: int,
        | #[trigger]
            addressed(
                envelope@,
                payload,
                aad,
                recipients,
                seed,
                index,
                key,
                secret,
            ) implies ({
            let content_key = derived(seed, "content-key"@, 32);
            &&& block_for(envelope@.recipients, kem_key_id(key)) matches Some(b) && b.kem
                == key.suite.token() && wrapped_for(
                b,
                key,
                secret,
                index as nat,
                content_key,
                seed,
            )
            &&& nonce_in(envelope@.nonce) == Some(derived(seed, "content-nonce"@, 12))
            &&& unhex_text(envelope@.aad) == Some(aad)
            &&& unhex_text(envelope@.ciphertext) == aes_sealed(
                content_key,
                derived(seed, "content-nonce"@, 12),
                payload,
                aad,
            )
            &&& unhex_text(envelope@.ciphertext) is Some
        }) by {
            let content_key = derived(seed, "content-key"@, 32);
            let nonce = derived(seed, "content-nonce"@, 12);
            lemma_addressed_block(recipients, content_key, seed, index);
            assert(wrap_sized(recipients[index], index as nat, seed));
            crate::text::unhex_inverts_hex(nonce);
            crate::text::unhex_inverts_hex(aad);
            crate::text::unhex_inverts_hex(aes_sealed(content_key, nonce, payload, aad)->0);
        }
    }
    let id = recipient.public.key_id();
    let block = match envelope.recipient(id.as_str()) {
        None => {
            return Err(
                SignatifError::Crypto(
                    cat2("the envelope carries no wrap for recipient ", id.as_str()),
                ),
            );
        },
        Some(b) => b,
    };
    let suite = match KemSuite::parse_token(block.kem.as_str()) {
        Err(e) => {
            return Err(e);
        },
        Ok(s) => s,
    };
    if suite != recipient.suite() {
        return Err(
            SignatifError::Crypto(
                cat5(
                    "wrap is `",
                    block.kem.as_str(),
                    "` but the recipient key is `",
                    recipient.suite().as_str(),
                    "`",
                ),
            ),
        );
    }
    let content_key = match unwrap_for(recipient, block) {
        Err(e) => {
            return Err(e);
        },
        Ok(k) => k,
    };
    let nonce = match read_nonce(envelope.nonce.as_str(), "bad content nonce hex") {
        Err(e) => {
            return Err(e);
        },
        Ok(n) => n,
    };
    let aad = match read_bytes(envelope.aad.as_str(), "bad aad hex") {
        Err(e) => {
            return Err(e);
        },
        Ok(a) => a,
    };
    let ciphertext = match read_bytes(envelope.ciphertext.as_str(), "bad ciphertext hex") {
        Err(e) => {
            return Err(e);
        },
        Ok(c) => c,
    };
    match gcm_open(&content_key, &nonce, ciphertext.as_slice(), aad.as_slice()) {
        None => Err(
            SignatifError::crypto(
                "envelope authentication failed (tampered ciphertext, aad, or tag)",
            ),
        ),
        Some(payload) => Ok(payload),
    }
}

} // verus!
