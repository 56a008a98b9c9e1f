//! Byte strings: comparing, copying and joining them.

use vstd::prelude::*;
use vstd::utf8::encode_utf8;

verus! {

/// The UTF-8 encoding of a text.
pub open spec fn utf8(s: Seq<char>) -> Seq<u8> {
    encode_utf8(s)
}

/// Whether two byte strings are equal.
pub fn same_bytes(a: &[u8], b: &[u8]) -> (r: bool)
    ensures
        r == (a@ == b@),
{
    if a.len() != b.len() {
        return false;
    }
    let mut i: usize = 0;
    while i < a.len()
        invariant
            i <= a.len(),
            a.len() == b.len(),
            forall|k: int| 0 <= k < i ==> a@[k] == b@[k],
        decreases a.len() - i,
    {
        if a[i] != b[i] {
            return false;
        }
        i += 1;
    }
    assert(a@ =~= b@);
    true
}

/// Whether two arrays are equal.
pub fn same_array<const N: usize>(a: &[u8; N], b: &[u8; N]) -> (r: bool)
    ensures
        r == (a@ == b@),
        r == (*a == *b),
{
    let r = same_bytes(a.as_slice(), b.as_slice());
    assert(r ==> *a =~= *b);
    r
}

/// A copy of a byte string.
pub fn copied(a: &[u8]) -> (r: Vec<u8>)
    ensures
        r@ == a@,
{
    let mut out: Vec<u8> = Vec::new();
    out.extend_from_slice(a);
    out
}

/// Appends bytes.
pub fn append(out: &mut Vec<u8>, more: &[u8])
    ensures
        final(out)@ == old(out)@ + more@,
{
    out.extend_from_slice(more);
    assert(out@ =~= old(out)@ + more@);
}

/// Two byte strings joined.
pub fn joined(a: &[u8], b: &[u8]) -> (r: Vec<u8>)
    ensures
        r@ == a@ + b@,
{
    let mut out = copied(a);
    append(&mut out, b);
    out
}

/// The array with the given bytes, when there are as many as it holds.
pub fn array_of<const N: usize>(a: &[u8]) -> (r: Option<[u8; N]>)
    ensures
        r is Some == (a@.len() == N),
        r matches Some(v) ==> v@ == a@,
{
    if a.len() != N {
        return None;
    }
    let mut out: [u8; N] = [0u8; N];
    let mut i: usize = 0;
    while i < N
        invariant
            i <= N,
            a@.len() == N,
            forall|k: int| 0 <= k < i ==> out@[k] == a@[k],
        decreases N - i,
    {
        out[i] = a[i];
        i += 1;
    }
    assert(out@ =~= a@);
    Some(out)
}

} // verus!
