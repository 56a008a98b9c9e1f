//! SHA-256 digests.

use sha2::{Digest, Sha256};
use vstd::prelude::*;

use crate::bytes::same_array;
use crate::text::{hex, hex_text};

verus! {

/// The SHA-256 digest of a byte string.
pub uninterp spec fn sha256_of(bytes: Seq<u8>) -> Seq<u8>;

/// Trusted: `sha2::Sha256::digest`. The digest is 32 bytes and depends on the
/// bytes alone; [`sha256_of`] names it.
#[verifier::external_body]
fn sha256_array(bytes: &[u8]) -> (r: [u8; 32])
    ensures
        r@ == sha256_of(bytes@),
{
    Sha256::digest(bytes).into()
}

/// A 32-byte digest.
#[derive(Debug, Clone, Copy, PartialEq, Eq)]
pub struct Hash32(pub [u8; 32]);

impl View for Hash32 {
    type V = Seq<u8>;

    open spec fn view(&self) -> Seq<u8> {
        self.0@
    }
}

impl Hash32 {
    /// The bytes of the digest.
    pub fn as_bytes(&self) -> (r: &[u8; 32])
        ensures
            r@ == self@,
            *r == self.0,
    {
        &self.0
    }

    /// The digest in hexadecimal.
    pub fn hex(&self) -> (r: String)
        ensures
            r@ == hex_text(self@),
    {
        hex(self.0.as_slice())
    }

    /// Whether two digests are equal.
    pub fn same(&self, other: &Hash32) -> (r: bool)
        ensures
            r == (self@ == other@),
            r == (*self == *other),
    {
        same_array(&self.0, &other.0)
    }
}

/// The SHA-256 digest of a byte string.
pub fn sha256(bytes: &[u8]) -> (r: Hash32)
    ensures
        r@ == sha256_of(bytes@),
{
    Hash32(sha256_array(bytes))
}

} // verus!
