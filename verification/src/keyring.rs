//! Keys: public keys, their content-derived ids, and key pairs derived from a
//! seed.
//!
//! A key id is `k-` and the first 16 hexadecimal digits of the digest of the
//! suite code and the public key, so it pins one public key and its suite.
//! Signing is deterministic for both suites: the same seed and payload give
//! the same signature.

use ed25519_dalek::{Signer, Verifier};
use vstd::prelude::*;

use crate::bytes::{append, array_of, copied, same_array, utf8};
use crate::curve::{ed25519_accepts, point_log};
use crate::digest::{sha256, sha256_of};
use crate::sign::{suite_of_token, Suite};
use crate::text::{
    all_graphic, cat2, cat3, cat4, cat5, chars_of, count, decimal, graphic, hex_digit, hex_text,
    is_graphic, quote, quoted, same_text, string_of, trim, trimmed, unhex, unhex_text,
};
use crate::{ErrorView, SignatifError};

verus! {

/// The Ed25519 public key of a secret seed.
pub uninterp spec fn ed25519_public_key(seed: Seq<u8>) -> Seq<u8>;

/// The Ed25519 signature under a secret seed.
pub uninterp spec fn ed25519_signature(seed: Seq<u8>, message: Seq<u8>) -> Seq<u8>;

/// Whether 32 bytes encode a point, and so an Ed25519 public key.
pub open spec fn ed25519_key_valid(key: Seq<u8>) -> bool {
    point_log(key) is Some
}

/// The uncompressed P-256 public key of a secret scalar; `None` when the bytes
/// are not a scalar of a key.
pub uninterp spec fn p256_public_key(scalar: Seq<u8>) -> Option<Seq<u8>>;

/// The deterministic P-256 signature under a secret scalar, if there is one.
pub uninterp spec fn p256_signature(scalar: Seq<u8>, message: Seq<u8>) -> Option<Seq<u8>>;

/// Whether 65 bytes encode a point that can serve as a P-256 public key.
pub uninterp spec fn p256_key_valid(key: Seq<u8>) -> bool;

/// Whether bytes encode a P-256 signature.
pub uninterp spec fn p256_signature_valid(signature: Seq<u8>) -> bool;

/// Whether a P-256 public key accepts a signature of a message.
pub uninterp spec fn p256_accepts(key: Seq<u8>, message: Seq<u8>, signature: Seq<u8>) -> bool;

/// Trusted: `ed25519_dalek::SigningKey::from_bytes` and its `verifying_key`.
/// The public key depends on the seed alone, and it decodes as a key.
#[verifier::external_body]
fn ed25519_public(seed: &[u8; 32]) -> (r: [u8; 32])
    ensures
        r@ == ed25519_public_key(seed@),
        ed25519_key_valid(r@),
{
    ed25519_dalek::SigningKey::from_bytes(seed).verifying_key().to_bytes()
}

/// Trusted: `ed25519_dalek::SigningKey::sign`. The signature depends on the
/// seed and the message alone, and the seed's public key accepts it.
#[verifier::external_body]
fn ed25519_sign(seed: &[u8; 32], message: &[u8]) -> (r: [u8; 64])
    ensures
        r@ == ed25519_signature(seed@, message@),
        ed25519_accepts(ed25519_public_key(seed@), message@, r@),
{
    ed25519_dalek::SigningKey::from_bytes(seed).sign(message).to_bytes()
}

/// Trusted: `ed25519_dalek::VerifyingKey::from_bytes`. It succeeds when the
/// bytes encode a point; the message when they do not says that they do not
/// decompress.
#[verifier::external_body]
fn ed25519_key_decodes(key: &[u8; 32]) -> (r: Result<(), String>)
    ensures
        r is Ok == ed25519_key_valid(key@),
        r matches Err(m) ==> m@ == "signature error: Cannot decompress Edwards point"@,
{
    ed25519_dalek::VerifyingKey::from_bytes(key).map(|_| ()).map_err(|e| e.to_string())
}

/// Trusted: `ed25519_dalek::Signature::from_slice`. It succeeds on 64 bytes and
/// keeps them; the message on others is one text.
#[verifier::external_body]
fn ed25519_signature_decodes(signature: &[u8]) -> (r: Result<[u8; 64], String>)
    ensures
        r is Ok == (signature@.len() == 64),
        r matches Ok(s) ==> s@ == signature@,
        r matches Err(m) ==> m@ == "signature error"@,
{
    ed25519_dalek::Signature::from_slice(signature).map(|s| s.to_bytes()).map_err(|e| e.to_string())
}

/// Trusted: `ed25519_dalek::VerifyingKey::verify`. It holds the signature to
/// the Ed25519 equation; bytes that do not decode as a key accept nothing.
#[verifier::external_body]
fn ed25519_verify(key: &[u8; 32], message: &[u8], signature: &[u8; 64]) -> (r: bool)
    ensures
        r == ed25519_accepts(key@, message@, signature@),
{
    match ed25519_dalek::VerifyingKey::from_bytes(key) {
        Ok(k) => k.verify(message, &ed25519_dalek::Signature::from_bytes(signature)).is_ok(),
        Err(_) => false,
    }
}

/// Trusted: `p256::ecdsa::SigningKey::from_bytes` and its `verifying_key` as an
/// uncompressed point. Whether there is a key, and which, depends on the bytes
/// alone; the message when there is none is one text; the point starts with the
/// byte 4 and decodes as a key.
#[verifier::external_body]
fn p256_public(scalar: &[u8; 32]) -> (r: Result<[u8; 65], String>)
    ensures
        r is Ok == p256_public_key(scalar@) is Some,
        r matches Ok(p) ==> Some(p@) == p256_public_key(scalar@) && p@[0] == 4 && p256_key_valid(
            p@,
        ),
        r matches Err(m) ==> m@ == "signature error"@,
{
    let key = p256::ecdsa::SigningKey::from_bytes(&p256::FieldBytes::from(*scalar));
    let point = key.map_err(|e| e.to_string())?.verifying_key().to_encoded_point(false);
    let mut out = [0u8; 65];
    out.copy_from_slice(point.as_bytes());
    Ok(out)
}

/// Trusted: `p256::ecdsa::SigningKey::try_sign`, deterministic by RFC 6979.
/// Whether there is a signature, and which, depends on the scalar and the
/// message alone; it is 64 bytes, decodes as a signature, and the scalar's
/// public key accepts it.
#[verifier::external_body]
fn p256_sign(scalar: &[u8; 32], message: &[u8]) -> (r: Option<[u8; 64]>)
    ensures
        r is Some == p256_signature(scalar@, message@) is Some,
        r matches Some(s) ==> Some(s@) == p256_signature(scalar@, message@)
            && p256_signature_valid(s@) && (p256_public_key(scalar@) matches Some(p) && p256_accepts(
            p,
            message@,
            s@,
        )),
{
    let key = p256::ecdsa::SigningKey::from_bytes(&p256::FieldBytes::from(*scalar)).ok()?;
    let signature: p256::ecdsa::Signature = key.try_sign(message).ok()?;
    Some(signature.to_bytes().into())
}

/// Trusted: `p256::ecdsa::VerifyingKey::from_sec1_bytes`. Whether it succeeds
/// depends on the bytes alone; the message when it does not is one text.
#[verifier::external_body]
fn p256_key_decodes(key: &[u8; 65]) -> (r: Result<(), String>)
    ensures
        r is Ok == p256_key_valid(key@),
        r matches Err(m) ==> m@ == "signature error"@,
{
    p256::ecdsa::VerifyingKey::from_sec1_bytes(key).map(|_| ()).map_err(|e| e.to_string())
}

/// Trusted: `p256::ecdsa::Signature::from_slice`. Whether it succeeds depends
/// on the bytes alone; the message when it does not is one text.
#[verifier::external_body]
fn p256_signature_decodes(signature: &[u8]) -> (r: Result<(), String>)
    ensures
        r is Ok == p256_signature_valid(signature@),
        r matches Err(m) ==> m@ == "signature error"@,
{
    p256::ecdsa::Signature::from_slice(signature).map(|_| ()).map_err(|e| e.to_string())
}

/// Trusted: `p256::ecdsa::VerifyingKey::verify`. Its verdict depends on the
/// key, the message and the signature alone; bytes that do not decode as a key
/// or as a signature accept nothing.
#[verifier::external_body]
fn p256_verify(key: &[u8; 65], message: &[u8], signature: &[u8]) -> (r: bool)
    ensures
        r == p256_accepts(key@, message@, signature@),
{
    match (
        p256::ecdsa::VerifyingKey::from_sec1_bytes(key),
        p256::ecdsa::Signature::from_slice(signature),
    ) {
        (Ok(k), Ok(s)) => k.verify(message, &s).is_ok(),
        _ => false,
    }
}

/// A public key of one of the computed suites. A P-256 key is the uncompressed
/// point: the byte 4 and the two coordinates.
#[derive(Debug, Clone, Copy, PartialEq, Eq)]
pub enum PublicKey {
    /// An Ed25519 key.
    Ed25519([u8; 32]),
    /// A P-256 key.
    EcdsaP256Uncompressed([u8; 65]),
}

/// A public key as a mathematical value: its suite and its bytes.
#[verifier::ext_equal]
pub struct KeyView {
    /// The suite.
    pub suite: Suite,
    /// The encoding.
    pub bytes: Seq<u8>,
}

impl View for PublicKey {
    type V = KeyView;

    open spec fn view(&self) -> KeyView {
        match self {
            PublicKey::Ed25519(b) => KeyView { suite: Suite::Ed25519, bytes: b@ },
            PublicKey::EcdsaP256Uncompressed(b) => KeyView { suite: Suite::EcdsaP256, bytes: b@ },
        }
    }
}

/// The public key that bytes encode: 32 bytes are an Ed25519 key, 65 bytes that
/// start with 4 a P-256 key.
pub open spec fn key_of_bytes(b: Seq<u8>) -> Option<KeyView> {
    if b.len() == 32 {
        Some(KeyView { suite: Suite::Ed25519, bytes: b })
    } else if b.len() == 65 && b[0] == 4 {
        Some(KeyView { suite: Suite::EcdsaP256, bytes: b })
    } else {
        None
    }
}

/// What checking a signature of a message under a key gives.
pub open spec fn raw_verdict(key: KeyView, message: Seq<u8>, signature: Seq<u8>) -> Result<
    (),
    ErrorView,
> {
    if key.suite == Suite::Ed25519 {
        if !ed25519_key_valid(key.bytes) {
            Err(
                ErrorView::Crypto(
                    "bad Ed25519 key: "@ + "signature error: Cannot decompress Edwards point"@,
                ),
            )
        } else if signature.len() != 64 {
            Err(
                ErrorView::Crypto(
                    "bad Ed25519 signature length: "@ + "signature error"@,
                ),
            )
        } else if ed25519_accepts(key.bytes, message, signature) {
            Ok(())
        } else {
            Err(ErrorView::Crypto("Ed25519 signature invalid"@))
        }
    } else {
        if !p256_key_valid(key.bytes) {
            Err(ErrorView::Crypto("bad P-256 point: "@ + "signature error"@))
        } else if !p256_signature_valid(signature) {
            Err(
                ErrorView::Crypto(
                    "bad ECDSA-P256 signature: "@ + "signature error"@,
                ),
            )
        } else if p256_accepts(key.bytes, message, signature) {
            Ok(())
        } else {
            Err(ErrorView::Crypto("ECDSA-P256 signature invalid"@))
        }
    }
}

/// The id of a public key.
pub open spec fn key_id_of(key: KeyView) -> Seq<char> {
    "k-"@ + hex_text(sha256_of(seq![key.suite.spec_code()] + key.bytes)).take(16)
}

impl PublicKey {
    /// The suite of the key.
    pub fn suite(&self) -> (r: Suite)
        ensures
            r == self@.suite,
    {
        match self {
            PublicKey::Ed25519(_) => Suite::Ed25519,
            PublicKey::EcdsaP256Uncompressed(_) => Suite::EcdsaP256,
        }
    }

    /// The encoding of the key.
    pub fn as_bytes(&self) -> (r: &[u8])
        ensures
            r@ == self@.bytes,
    {
        match self {
            PublicKey::Ed25519(b) => b.as_slice(),
            PublicKey::EcdsaP256Uncompressed(b) => b.as_slice(),
        }
    }

    /// Decodes what [`PublicKey::as_bytes`] gives.
    pub fn from_bytes(bytes: &[u8]) -> (r: Result<PublicKey, SignatifError>)
        ensures
            r is Ok == key_of_bytes(bytes@) is Some,
            r matches Ok(k) ==> Some(k@) == key_of_bytes(bytes@),
            r matches Err(e) ==> e@ == ErrorView::Crypto(
                "not a SIGNATIF public key encoding (len "@ + decimal(bytes@.len()) + ")"@,
            ),
    {
        if bytes.len() == 32 {
            if let Some(b) = array_of::<32>(bytes) {
                return Ok(PublicKey::Ed25519(b));
            }
        } else if bytes.len() == 65 && bytes[0] == 4 {
            if let Some(b) = array_of::<65>(bytes) {
                return Ok(PublicKey::EcdsaP256Uncompressed(b));
            }
        }
        let n = count(bytes.len());
        Err(
            SignatifError::Crypto(
                cat3("not a SIGNATIF public key encoding (len ", n.as_str(), ")"),
            ),
        )
    }

    /// Whether two keys are the same.
    pub fn same(&self, other: &PublicKey) -> (r: bool)
        ensures
            r == (self@ == other@),
            r == (*self == *other),
    {
        match (self, other) {
            (PublicKey::Ed25519(a), PublicKey::Ed25519(b)) => same_array(a, b),
            (
                PublicKey::EcdsaP256Uncompressed(a),
                PublicKey::EcdsaP256Uncompressed(b),
            ) => same_array(a, b),
            _ => false,
        }
    }

    /// The suite and the digest of the key, in words.
    pub fn to_string(&self) -> (r: String)
        ensures
            r@ == self@.suite.token() + ":"@ + hex_text(sha256_of(self@.bytes)),
    {
        let h = sha256(self.as_bytes()).hex();
        cat3(self.suite().as_str(), ":", h.as_str())
    }
}

/// The position of the first colon in a text.
pub open spec fn first_colon(s: Seq<char>) -> Option<int>
    decreases s.len(),
{
    if s.len() == 0 {
        None
    } else {
        match first_colon(s.drop_last()) {
            Some(i) => Some(i),
            None => if s.last() == ':' {
                Some(s.len() - 1)
            } else {
                None
            },
        }
    }
}

proof fn lemma_first_colon(s: Seq<char>, k: int)
    requires
        0 <= k <= s.len(),
        first_colon(s.take(k)) is Some,
    ensures
        first_colon(s) == first_colon(s.take(k)),
    decreases s.len() - k,
{
    if k < s.len() {
        assert(s.take(k + 1).drop_last() =~= s.take(k));
        lemma_first_colon(s, k + 1);
    } else {
        assert(s.take(k) =~= s);
    }
}

fn find_colon(c: &[char]) -> (r: Option<usize>)
    ensures
        match first_colon(c@) {
            None => r is None,
            Some(k) => r matches Some(i) && i == k && i < c@.len(),
        },
{
    let mut i: usize = 0;
    assert(c@.take(0) =~= Seq::<char>::empty());
    while i < c.len()
        invariant
            i <= c.len(),
            first_colon(c@.take(i as int)) is None,
        decreases c.len() - i,
    {
        assert(c@.take(i + 1).drop_last() =~= c@.take(i as int));
        if c[i] == ':' {
            proof {
                lemma_first_colon(c@, i + 1);
            }
            return Some(i);
        }
        i += 1;
    }
    assert(c@.take(i as int) =~= c@);
    None
}

/// The public key in a text: the suite, a colon, and the bytes in hexadecimal;
/// or what is wrong with the text.
pub open spec fn key_in_text(s: Seq<char>) -> Result<KeyView, Seq<char>> {
    match first_colon(s) {
        None => Err("bad public key `"@ + s + "`"@),
        Some(i) => match suite_of_token(s.take(i)) {
            None => Err(ErrorView::Validation("unknown suite `"@ + s.take(i) + "`"@).text()),
            Some(suite) => match unhex_text(s.skip(i + 1)) {
                None => Err("bad public key bytes `"@ + s + "`"@),
                Some(bytes) => match key_of_bytes(bytes) {
                    None => Err(
                        ErrorView::Crypto(
                            "not a SIGNATIF public key encoding (len "@ + decimal(bytes.len())
                                + ")"@,
                        ).text(),
                    ),
                    Some(key) => if key.suite != suite {
                        Err(
                            "key claims suite "@ + suite.token() + " but bytes are "@
                                + key.suite.token(),
                        )
                    } else {
                        Ok(key)
                    },
                },
            },
        },
    }
}

impl PublicKey {
    /// Reads a public key from a text: the suite, a colon, and the bytes in
    /// hexadecimal.
    pub fn from_text(s: &str) -> (r: Result<PublicKey, String>)
        ensures
            match key_in_text(s@) {
                Ok(key) => r matches Ok(k) && k@ == key,
                Err(f) => r matches Err(m) && m@ == f,
            },
    {
        let c = chars_of(s);
        let i = match find_colon(c.as_slice()) {
            None => {
                return Err(cat3("bad public key `", s, "`"));
            },
            Some(i) => i,
        };
        let name = string_of(vstd::slice::slice_subrange(c.as_slice(), 0, i));
        let digits = string_of(vstd::slice::slice_subrange(c.as_slice(), i + 1, c.len()));
        assert(name@ =~= s@.take(i as int));
        assert(digits@ =~= s@.skip(i + 1));
        let suite = match Suite::parse_token(name.as_str()) {
            Err(e) => {
                return Err(e.to_string());
            },
            Ok(x) => x,
        };
        let bytes = match unhex(digits.as_str()) {
            None => {
                return Err(cat3("bad public key bytes `", s, "`"));
            },
            Some(b) => b,
        };
        match PublicKey::from_bytes(bytes.as_slice()) {
            Err(e) => Err(e.to_string()),
            Ok(key) => if key.suite() != suite {
                Err(
                    cat4(
                        "key claims suite ",
                        suite.as_str(),
                        " but bytes are ",
                        key.suite().as_str(),
                    ),
                )
            } else {
                Ok(key)
            },
        }
    }
}

/// Whether a text can be the id of a key: it has 1 to 64 printing ASCII
/// characters.
pub open spec fn is_key_id(text: Seq<char>) -> bool {
    0 < text.len() <= 64 && all_graphic(text)
}

/// An id has no white space at its ends.
pub proof fn key_ids_are_trimmed(text: Seq<char>)
    requires
        is_key_id(text),
    ensures
        trimmed(text) == text,
{
    assert(is_graphic(text[0]));
    assert(is_graphic(text[text.len() - 1]));
}

proof fn lemma_derived_key_id(digest: Seq<u8>)
    requires
        digest.len() == 32,
    ensures
        is_key_id("k-"@ + hex_text(digest).take(16)),
{
    reveal_strlit("k-");
    let id = "k-"@ + hex_text(digest).take(16);
    assert forall|i: int| 0 <= i < id.len() implies is_graphic(#[trigger] id[i]) by {
        if i >= 2 {
            let k = i - 2;
            let b = digest[k / 2] as int;
            assert(id[i] == hex_text(digest)[k]);
            assert(id[i] == hex_digit(b / 16) || id[i] == hex_digit(b % 16));
            assert(0 <= b / 16 < 16 && 0 <= b % 16 < 16);
        }
    }
}

/// The id of a key.
#[derive(Debug, PartialEq, Eq, PartialOrd, Ord, Hash)]
pub struct KeyId(String);

impl View for KeyId {
    type V = Seq<char>;

    closed spec fn view(&self) -> Seq<char> {
        self.0@
    }
}

impl Clone for KeyId {
    fn clone(&self) -> (r: KeyId)
        ensures
            r == *self,
    {
        KeyId(self.0.clone())
    }
}

impl KeyId {
    /// The id of a public key.
    pub fn of(public: &PublicKey) -> (r: KeyId)
        ensures
            r@ == key_id_of(public@),
            is_key_id(r@),
    {
        let mut data: Vec<u8> = Vec::new();
        data.push(public.suite().code());
        append(&mut data, public.as_bytes());
        assert(data@ =~= seq![public@.suite.spec_code()] + public@.bytes);
        let digest = sha256(data.as_slice());
        let h = digest.hex();
        let c = chars_of(h.as_str());
        assert(c@.len() == 64);
        let short = string_of(vstd::slice::slice_subrange(c.as_slice(), 0, 16));
        assert(short@ =~= hex_text(sha256_of(data@)).take(16));
        proof {
            lemma_derived_key_id(digest@);
        }
        KeyId(cat2("k-", short.as_str()))
    }

    /// The id with the given text, without white space at its ends. It has 1
    /// to 64 printing ASCII characters.
    pub fn new(raw: &str) -> (r: Result<KeyId, SignatifError>)
        ensures
            r is Ok == is_key_id(trimmed(raw@)),
            r matches Ok(id) ==> id@ == trimmed(raw@),
            r matches Err(e) ==> e@ == ErrorView::Validation(
                "bad key id `"@ + trimmed(raw@) + "`"@,
            ),
    {
        let t = trim(raw);
        let text = string_of(t.as_slice());
        if t.len() == 0 || t.len() > 64 || !graphic(t.as_slice()) {
            return Err(SignatifError::Validation(cat3("bad key id `", text.as_str(), "`")));
        }
        Ok(KeyId(text))
    }

    /// The text of the id.
    pub fn as_str(&self) -> (r: &str)
        ensures
            r@ == self@,
    {
        self.0.as_str()
    }

    /// The text of the id.
    pub fn to_string(&self) -> (r: String)
        ensures
            r@ == self@,
    {
        self.0.clone()
    }

    /// Whether two ids are the same.
    pub fn same(&self, other: &KeyId) -> (r: bool)
        ensures
            r == (self@ == other@),
    {
        same_text(self.0.as_str(), other.0.as_str())
    }
}

/// The prefix of the seed material.
pub const KEY_SEED_TAG: &'static str = "UNIDPP-SIGNATIF/KEY-SEED";

/// The secret derived from seed material.
pub open spec fn seeded_secret(seed: Seq<u8>) -> Seq<u8> {
    sha256_of(utf8(KEY_SEED_TAG@) + seed)
}

/// The public key of a secret under a suite.
pub open spec fn public_of(suite: Suite, secret: Seq<u8>) -> Option<KeyView> {
    if suite == Suite::Ed25519 {
        Some(KeyView { suite, bytes: ed25519_public_key(secret) })
    } else if suite == Suite::EcdsaP256 {
        match p256_public_key(secret) {
            Some(p) => Some(KeyView { suite, bytes: p }),
            None => None,
        }
    } else {
        None
    }
}

/// The signature of a message under a suite and a secret, if there is one.
pub open spec fn signature_of(suite: Suite, secret: Seq<u8>, message: Seq<u8>) -> Option<Seq<u8>> {
    if suite == Suite::Ed25519 {
        Some(ed25519_signature(secret, message))
    } else {
        p256_signature(secret, message)
    }
}

/// A key pair. It keeps its secret to itself.
pub struct KeyPair {
    suite: Suite,
    secret: [u8; 32],
    public: PublicKey,
    key_id: KeyId,
}

impl KeyPair {
    #[verifier::type_invariant]
    spec fn consistent(self) -> bool {
        &&& self.suite.computed()
        &&& public_of(self.suite, self.secret@) == Some(self.public@)
        &&& self.key_id@ == key_id_of(self.public@) && is_key_id(self.key_id@)
        &&& self.suite == Suite::Ed25519 ==> ed25519_key_valid(self.public@.bytes)
        &&& self.suite == Suite::EcdsaP256 ==> p256_key_valid(self.public@.bytes)
    }

    /// The suite of the pair.
    pub closed spec fn spec_suite(self) -> Suite {
        self.suite
    }

    /// The secret of the pair.
    pub closed spec fn spec_secret(self) -> Seq<u8> {
        self.secret@
    }

    /// The public key of the pair.
    pub closed spec fn spec_public(self) -> KeyView {
        self.public@
    }

    /// The signature that the pair makes, if there is one.
    pub open spec fn spec_sign(self, message: Seq<u8>) -> Option<Seq<u8>> {
        signature_of(self.spec_suite(), self.spec_secret(), message)
    }

    /// What the parts of a pair have to do with each other: the public key is
    /// that of the secret, and its suite is computed.
    pub fn reveal_parts(&self)
        ensures
            self.spec_suite().computed(),
            public_of(self.spec_suite(), self.spec_secret()) == Some(self.spec_public()),
            self.spec_public().suite == self.spec_suite(),
    {
        proof {
            use_type_invariant(self);
        }
    }

    /// Derives a pair from seed material. Suites that are only framed are
    /// refused, and so is a digest that is no P-256 scalar.
    pub fn seeded(suite: Suite, seed: &[u8]) -> (r: Result<KeyPair, SignatifError>)
        ensures
            r is Ok == public_of(suite, seeded_secret(seed@)) is Some,
            r matches Ok(k) ==> k.spec_suite() == suite && k.spec_secret() == seeded_secret(seed@)
                && Some(k.spec_public()) == public_of(suite, seeded_secret(seed@)),
            r matches Err(e) ==> e@ == (match suite.refusal() {
                Some(e) => e,
                None => ErrorView::Crypto(
                    "bad P-256 scalar: "@ + "signature error"@,
                ),
            }),
    {
        let mut data = copied(KEY_SEED_TAG.as_bytes());
        append(&mut data, seed);
        let secret = sha256(data.as_slice()).0;
        match suite {
            Suite::Ed25519 => {
                let public = PublicKey::Ed25519(ed25519_public(&secret));
                let key_id = KeyId::of(&public);
                Ok(KeyPair { suite, secret, public, key_id })
            },
            Suite::EcdsaP256 => match p256_public(&secret) {
                Err(m) => Err(SignatifError::Crypto(cat2("bad P-256 scalar: ", m.as_str()))),
                Ok(p) => {
                    let public = PublicKey::EcdsaP256Uncompressed(p);
                    let key_id = KeyId::of(&public);
                    Ok(KeyPair { suite, secret, public, key_id })
                },
            },
            _ => match suite.refuse() {
                Some(e) => Err(e),
                None => Err(SignatifError::crypto("bad P-256 scalar: ")),
            },
        }
    }

    /// The suite of the pair.
    pub fn suite(&self) -> (r: Suite)
        ensures
            r == self.spec_suite(),
    {
        self.suite
    }

    /// The id of the pair's public key.
    pub fn key_id(&self) -> (r: &KeyId)
        ensures
            r@ == key_id_of(self.spec_public()),
            is_key_id(r@),
    {
        proof {
            use_type_invariant(self);
        }
        &self.key_id
    }

    /// The public key of the pair.
    pub fn public(&self) -> (r: &PublicKey)
        ensures
            r@ == self.spec_public(),
    {
        &self.public
    }

    /// The pair in words: its suite and its id, and nothing of its secret.
    pub fn describe(&self) -> (r: String)
        ensures
            r@ == "KeyPair { suite: "@ + (if self.spec_suite() == Suite::Ed25519 {
                "Ed25519"@
            } else {
                "EcdsaP256"@
            }) + ", key_id: KeyId("@ + quoted(key_id_of(self.spec_public())) + "), .. }"@,
    {
        let suite = match self.suite {
            Suite::Ed25519 => "Ed25519",
            _ => "EcdsaP256",
        };
        let id = quote(self.key_id().as_str());
        cat5("KeyPair { suite: ", suite, ", key_id: KeyId(", id.as_str(), "), .. }")
    }

    /// Signs bytes. The pair's public key accepts the signature.
    pub fn sign_raw(&self, payload: &[u8]) -> (r: Result<Vec<u8>, SignatifError>)
        ensures
            r is Ok == self.spec_sign(payload@) is Some,
            r matches Ok(s) ==> Some(s@) == self.spec_sign(payload@) && s@.len() == 64
                && raw_verdict(self.spec_public(), payload@, s@) == Ok::<(), ErrorView>(()),
            r matches Err(e) ==> e@ == ErrorView::Crypto("signing failed"@),
    {
        proof {
            use_type_invariant(self);
        }
        match self.suite {
            Suite::Ed25519 => {
                let s = ed25519_sign(&self.secret, payload);
                Ok(copied(s.as_slice()))
            },
            _ => match p256_sign(&self.secret, payload) {
                Some(s) => Ok(copied(s.as_slice())),
                None => Err(SignatifError::crypto("signing failed")),
            },
        }
    }

    /// Checks a signature of bytes under a public key.
    pub fn verify_raw(public: &PublicKey, payload: &[u8], signature: &[u8]) -> (r: Result<
        (),
        SignatifError,
    >)
        ensures
            crate::outcome(r) == raw_verdict(public@, payload@, signature@),
    {
        match public {
            PublicKey::Ed25519(key) => {
                if let Err(m) = ed25519_key_decodes(key) {
                    return Err(SignatifError::Crypto(cat2("bad Ed25519 key: ", m.as_str())));
                }
                match ed25519_signature_decodes(signature) {
                    Err(m) => Err(
                        SignatifError::Crypto(cat2("bad Ed25519 signature length: ", m.as_str())),
                    ),
                    Ok(s) => if ed25519_verify(key, payload, &s) {
                        Ok(())
                    } else {
                        Err(SignatifError::crypto("Ed25519 signature invalid"))
                    },
                }
            },
            PublicKey::EcdsaP256Uncompressed(key) => {
                if let Err(m) = p256_key_decodes(key) {
                    return Err(SignatifError::Crypto(cat2("bad P-256 point: ", m.as_str())));
                }
                if let Err(m) = p256_signature_decodes(signature) {
                    return Err(
                        SignatifError::Crypto(cat2("bad ECDSA-P256 signature: ", m.as_str())),
                    );
                }
                if p256_verify(key, payload, signature) {
                    Ok(())
                } else {
                    Err(SignatifError::crypto("ECDSA-P256 signature invalid"))
                }
            },
        }
    }
}

/// A public key decodes from its own encoding.
pub proof fn key_bytes_round_trip(key: PublicKey)
    requires
        key@.suite == Suite::EcdsaP256 ==> key@.bytes[0] == 4,
    ensures
        key_of_bytes(key@.bytes) == Some(key@),
{
}

} // verus!
