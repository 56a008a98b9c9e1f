//! The scalars and the points of Curve25519 in Edwards form.
//!
//! A scalar is a number below the prime [`order`], written as 32 bytes, least
//! byte first. The points are a group of `8 * order()` elements. It is cyclic:
//! the product of the cyclic subgroup of eight points and of the subgroup of
//! prime order that the base point generates. So its points can be numbered
//! from 0 such that adding points adds their numbers modulo `8 * order()`, and
//! the base point is number 8. [`point_log`] is the number of an encoded
//! point, [`point_bytes`] the encoding of a number; contracts speak of points
//! by their numbers.

use vstd::prelude::*;

use crate::bytes::{append, same_array};

verus! {

/// The prime order of the base point.
pub open spec fn order() -> int {
    0x1000000000000000000000000000000014def9dea2f79cd65812631a5cf5d3edint
}

/// The number of points.
pub open spec fn points() -> int {
    8 * order()
}

/// The number that bytes denote, least byte first.
pub open spec fn le_value(b: Seq<u8>) -> int
    decreases b.len(),
{
    if b.len() == 0 {
        0
    } else {
        b[0] as int + 256 * le_value(b.skip(1))
    }
}

/// The `n` low bytes of a number, least byte first.
pub open spec fn le_bytes(v: int, n: nat) -> Seq<u8>
    decreases n,
{
    if n == 0 {
        Seq::empty()
    } else {
        seq![(v % 256) as u8] + le_bytes(v / 256, (n - 1) as nat)
    }
}

/// The encoding of a scalar.
pub open spec fn scalar_bytes(v: int) -> Seq<u8> {
    le_bytes(v, 32)
}

/// `256` to the power `n`.
pub open spec fn pow256(n: nat) -> int
    decreases n,
{
    if n == 0 {
        1
    } else {
        256 * pow256((n - 1) as nat)
    }
}

proof fn lemma_pow256_positive(n: nat)
    ensures
        pow256(n) > 0,
    decreases n,
{
    if n > 0 {
        lemma_pow256_positive((n - 1) as nat);
    }
}

/// Reading back the bytes of a number gives the number, if it fits.
pub proof fn lemma_le_bytes(v: int, n: nat)
    requires
        0 <= v < pow256(n),
    ensures
        le_bytes(v, n).len() == n,
        le_value(le_bytes(v, n)) == v,
    decreases n,
{
    if n > 0 {
        assert(v / 256 < pow256((n - 1) as nat));
        lemma_le_bytes(v / 256, (n - 1) as nat);
        let b = le_bytes(v, n);
        assert(b.skip(1) =~= le_bytes(v / 256, (n - 1) as nat));
        assert(b[0] == v % 256);
    }
}

/// The bytes of what bytes denote are those bytes.
pub proof fn lemma_le_value(b: Seq<u8>)
    ensures
        0 <= le_value(b) < pow256(b.len()),
        le_bytes(le_value(b), b.len()) == b,
    decreases b.len(),
{
    if b.len() > 0 {
        let rest = b.skip(1);
        lemma_le_value(rest);
        let v = le_value(b);
        assert(v % 256 == b[0] as int && v / 256 == le_value(rest));
        assert(le_bytes(v, b.len()) =~= b);
    }
}

/// Scalars fit into 32 bytes.
pub proof fn lemma_order_fits()
    ensures
        order() < pow256(32),
{
    assert(pow256(8) == 0x10000000000000000int) by {
        reveal_with_fuel(pow256, 9);
    }
    assert(pow256(16) == 0x10000000000000000int * 0x10000000000000000int) by {
        reveal_with_fuel(pow256, 9);
    }
    assert(pow256(24) == 0x10000000000000000int * 0x10000000000000000int * 0x10000000000000000int)
        by {
        reveal_with_fuel(pow256, 9);
    }
    assert(pow256(32) == 0x10000000000000000int * 0x10000000000000000int * 0x10000000000000000int
        * 0x10000000000000000int) by {
        reveal_with_fuel(pow256, 9);
    }
}

/// The encoding of a scalar denotes it.
pub proof fn lemma_scalar_bytes(v: int)
    requires
        0 <= v < order(),
    ensures
        scalar_bytes(v).len() == 32,
        le_value(scalar_bytes(v)) == v,
{
    lemma_order_fits();
    lemma_le_bytes(v, 32);
}

/// The SHA-512 digest of bytes.
pub uninterp spec fn sha512_of(data: Seq<u8>) -> Seq<u8>;

/// The number of an encoded point; `None` when the bytes encode no point.
pub uninterp spec fn point_log(bytes: Seq<u8>) -> Option<int>;

/// The encoding of the point with a number.
pub uninterp spec fn point_bytes(number: int) -> Seq<u8>;

/// A digest taken as a scalar.
pub open spec fn digest_scalar(data: Seq<u8>) -> int {
    le_value(sha512_of(data)) % order()
}

/// Whether an Ed25519 public key accepts a signature of a message: the scalar
/// half is below the order, and the base point times it, less the key times
/// the challenge, is the point half.
pub open spec fn ed25519_accepts(key: Seq<u8>, message: Seq<u8>, signature: Seq<u8>) -> bool {
    let r = signature.take(32);
    let s = le_value(signature.skip(32));
    point_log(key) matches Some(a) && s < order() && r == point_bytes(
        (8 * s - digest_scalar(r + key + message) * a) % points(),
    )
}

/// Trusted: `sha2::Sha512::digest`. The digest depends on the bytes alone.
#[verifier::external_body]
fn sha512_array(data: &[u8]) -> (r: [u8; 64])
    ensures
        r@ == sha512_of(data@),
{
    <sha2::Sha512 as sha2::Digest>::digest(data).into()
}

/// Trusted: `curve25519_dalek::Scalar::from_bytes_mod_order_wide` and
/// `to_bytes`. The number that the bytes denote, reduced.
#[verifier::external_body]
fn scalar_reduced(wide: &[u8; 64]) -> (r: [u8; 32])
    ensures
        r@ == scalar_bytes(le_value(wide@) % order()),
{
    curve25519_dalek::Scalar::from_bytes_mod_order_wide(wide).to_bytes()
}

/// Trusted: `curve25519_dalek::Scalar::from_canonical_bytes`. It succeeds for
/// the encodings of the numbers below the order.
#[verifier::external_body]
fn scalar_canonical(b: &[u8; 32]) -> (r: bool)
    ensures
        r == (le_value(b@) < order()),
{
    curve25519_dalek::Scalar::from_canonical_bytes(*b).is_some().into()
}

/// Trusted: `curve25519_dalek::Scalar::from` for `u64`.
#[verifier::external_body]
fn scalar_of_number(n: u64) -> (r: [u8; 32])
    ensures
        r@ == scalar_bytes(n as int),
{
    curve25519_dalek::Scalar::from(n).to_bytes()
}

/// Trusted: addition of `curve25519_dalek::Scalar`, on scalars read by
/// `from_bytes_mod_order`.
#[verifier::external_body]
fn scalar_plus(a: &[u8; 32], b: &[u8; 32]) -> (r: [u8; 32])
    ensures
        r@ == scalar_bytes((le_value(a@) + le_value(b@)) % order()),
{
    let x = curve25519_dalek::Scalar::from_bytes_mod_order(*a);
    let y = curve25519_dalek::Scalar::from_bytes_mod_order(*b);
    (x + y).to_bytes()
}

/// Trusted: subtraction of `curve25519_dalek::Scalar`, on scalars read by
/// `from_bytes_mod_order`.
#[verifier::external_body]
fn scalar_minus(a: &[u8; 32], b: &[u8; 32]) -> (r: [u8; 32])
    ensures
        r@ == scalar_bytes((le_value(a@) - le_value(b@)) % order()),
{
    let x = curve25519_dalek::Scalar::from_bytes_mod_order(*a);
    let y = curve25519_dalek::Scalar::from_bytes_mod_order(*b);
    (x - y).to_bytes()
}

/// Trusted: multiplication of `curve25519_dalek::Scalar`, on scalars read by
/// `from_bytes_mod_order`.
#[verifier::external_body]
fn scalar_times(a: &[u8; 32], b: &[u8; 32]) -> (r: [u8; 32])
    ensures
        r@ == scalar_bytes((le_value(a@) * le_value(b@)) % order()),
{
    let x = curve25519_dalek::Scalar::from_bytes_mod_order(*a);
    let y = curve25519_dalek::Scalar::from_bytes_mod_order(*b);
    (x * y).to_bytes()
}

/// Trusted: `curve25519_dalek::Scalar::invert` of a scalar other than zero,
/// read by `from_bytes_mod_order`. The product of the two is one.
#[verifier::external_body]
fn scalar_inverted(a: &[u8; 32]) -> (r: [u8; 32])
    requires
        le_value(a@) % order() != 0,
    ensures
        0 <= le_value(r@) < order(),
        (le_value(a@) * le_value(r@)) % order() == 1,
{
    curve25519_dalek::Scalar::from_bytes_mod_order(*a).invert().to_bytes()
}

/// Trusted: `curve25519_dalek::edwards::CompressedEdwardsY::decompress`.
/// Whether the bytes encode a point depends on them alone; a point has a
/// number below the number of points.
#[verifier::external_body]
fn point_decodes(b: &[u8; 32]) -> (r: bool)
    ensures
        r == point_log(b@) is Some,
        r ==> 0 <= point_log(b@)->0 < points(),
{
    curve25519_dalek::edwards::CompressedEdwardsY(*b).decompress().is_some()
}

/// Trusted: `curve25519_dalek::edwards::EdwardsPoint::identity`, compressed.
#[verifier::external_body]
fn point_zero() -> (r: [u8; 32])
    ensures
        r@ == point_bytes(0),
        point_log(r@) == Some(0int),
{
    let p: curve25519_dalek::edwards::EdwardsPoint = curve25519_dalek::traits::Identity::identity();
    p.compress().0
}

/// Trusted: the product of a `curve25519_dalek::Scalar`, read by
/// `from_bytes_mod_order`, and the Ed25519 base point, compressed.
#[verifier::external_body]
fn base_times(s: &[u8; 32]) -> (r: [u8; 32])
    ensures
        r@ == point_bytes(8 * (le_value(s@) % order())),
        point_log(r@) == Some(8 * (le_value(s@) % order())),
{
    let x = curve25519_dalek::Scalar::from_bytes_mod_order(*s);
    (x * curve25519_dalek::constants::ED25519_BASEPOINT_POINT).compress().0
}

/// Trusted: addition of `curve25519_dalek::edwards::EdwardsPoint`, on
/// decompressed points, compressed. The numbers are added.
#[verifier::external_body]
fn point_plus(a: &[u8; 32], b: &[u8; 32]) -> (r: [u8; 32])
    requires
        point_log(a@) is Some,
        point_log(b@) is Some,
    ensures
        r@ == point_bytes((point_log(a@)->0 + point_log(b@)->0) % points()),
        point_log(r@) == Some((point_log(a@)->0 + point_log(b@)->0) % points()),
{
    let x = curve25519_dalek::edwards::CompressedEdwardsY(*a).decompress().unwrap();
    let y = curve25519_dalek::edwards::CompressedEdwardsY(*b).decompress().unwrap();
    (x + y).compress().0
}

/// Trusted: subtraction of `curve25519_dalek::edwards::EdwardsPoint`, on
/// decompressed points, compressed. The numbers are subtracted.
#[verifier::external_body]
fn point_minus(a: &[u8; 32], b: &[u8; 32]) -> (r: [u8; 32])
    requires
        point_log(a@) is Some,
        point_log(b@) is Some,
    ensures
        r@ == point_bytes((point_log(a@)->0 - point_log(b@)->0) % points()),
        point_log(r@) == Some((point_log(a@)->0 - point_log(b@)->0) % points()),
{
    let x = curve25519_dalek::edwards::CompressedEdwardsY(*a).decompress().unwrap();
    let y = curve25519_dalek::edwards::CompressedEdwardsY(*b).decompress().unwrap();
    (x - y).compress().0
}

/// Trusted: the product of a `curve25519_dalek::Scalar`, read by
/// `from_bytes_mod_order`, and a decompressed
/// `curve25519_dalek::edwards::EdwardsPoint`, compressed. The number is
/// multiplied.
#[verifier::external_body]
fn point_times(s: &[u8; 32], p: &[u8; 32]) -> (r: [u8; 32])
    requires
        point_log(p@) is Some,
    ensures
        r@ == point_bytes(((le_value(s@) % order()) * point_log(p@)->0) % points()),
        point_log(r@) == Some(((le_value(s@) % order()) * point_log(p@)->0) % points()),
{
    let x = curve25519_dalek::Scalar::from_bytes_mod_order(*s);
    let point = curve25519_dalek::edwards::CompressedEdwardsY(*p).decompress().unwrap();
    (x * point).compress().0
}

/// The inverse of a number modulo the order.
pub open spec fn inverse(x: int) -> int {
    choose|y: int| 0 <= y < order() && #[trigger] (x * y) % order() == 1
}

/// Whether a number has an inverse modulo the order.
pub open spec fn invertible(x: int) -> bool {
    exists|y: int| 0 <= y < order() && #[trigger] (x * y) % order() == 1
}

/// Two numbers that are the same modulo the order.
pub open spec fn congruent(a: int, b: int) -> bool {
    (a - b) % order() == 0
}

/// There is one inverse at most.
pub proof fn lemma_inverse_unique(x: int, y: int, z: int)
    requires
        0 <= y < order(),
        0 <= z < order(),
        (x * y) % order() == 1,
        (x * z) % order() == 1,
    ensures
        y == z,
{
    let l = order();
    let p = (x * y) / l;
    let q = (x * z) / l;
    assert(x * y == l * p + 1) by (nonlinear_arith)
        requires
            l > 0,
            p == (x * y) / l,
            (x * y) % l == 1,
    ;
    assert(x * z == l * q + 1) by (nonlinear_arith)
        requires
            l > 0,
            q == (x * z) / l,
            (x * z) % l == 1,
    ;
    assert(z - y == l * (y * q - z * p)) by (nonlinear_arith)
        requires
            x * y == l * p + 1,
            x * z == l * q + 1,
    ;
    let k = y * q - z * p;
    assert(k == 0) by (nonlinear_arith)
        requires
            z - y == l * k,
            0 <= y < l,
            0 <= z < l,
    ;
}

/// A scalar.
#[derive(Debug, Clone, Copy, PartialEq, Eq)]
pub struct Scalar {
    bytes: [u8; 32],
}

impl View for Scalar {
    type V = int;

    closed spec fn view(&self) -> int {
        le_value(self.bytes@)
    }
}

impl Scalar {
    #[verifier::type_invariant]
    spec fn reduced(self) -> bool {
        le_value(self.bytes@) < order()
    }

    /// A scalar is a number below the order.
    pub fn reveal_range(&self)
        ensures
            0 <= self@ < order(),
    {
        proof {
            use_type_invariant(self);
            lemma_le_value(self.bytes@);
        }
    }

    fn of_bytes(bytes: [u8; 32], Ghost(v): Ghost<int>) -> (r: Scalar)
        requires
            0 <= v < order(),
            bytes@ == scalar_bytes(v),
        ensures
            r@ == v,
    {
        proof {
            lemma_scalar_bytes(v);
        }
        Scalar { bytes }
    }

    /// The scalar of a number.
    pub fn of_number(n: u64) -> (r: Scalar)
        ensures
            r@ == n,
    {
        let bytes = scalar_of_number(n);
        Scalar::of_bytes(bytes, Ghost(n as int))
    }

    /// The scalar that 32 bytes encode; `None` when they encode a number that
    /// is not below the order.
    pub fn decode(b: &[u8; 32]) -> (r: Option<Scalar>)
        ensures
            r is Some == (le_value(b@) < order()),
            r matches Some(x) ==> x@ == le_value(b@),
    {
        if scalar_canonical(b) {
            Some(Scalar { bytes: *b })
        } else {
            None
        }
    }

    /// The encoding.
    pub fn encode(&self) -> (r: [u8; 32])
        ensures
            r@ == scalar_bytes(self@),
    {
        proof {
            lemma_le_value(self.bytes@);
        }
        self.bytes
    }

    /// The digest of three pieces, taken as a scalar.
    pub fn digest(a: &[u8], b: &[u8], c: &[u8]) -> (r: Scalar)
        ensures
            r@ == digest_scalar(a@ + b@ + c@),
    {
        let mut data: Vec<u8> = Vec::new();
        append(&mut data, a);
        append(&mut data, b);
        append(&mut data, c);
        assert(data@ =~= a@ + b@ + c@);
        let wide = sha512_array(data.as_slice());
        let bytes = scalar_reduced(&wide);
        Scalar::of_bytes(bytes, Ghost(digest_scalar(data@)))
    }

    /// The sum.
    pub fn plus(&self, other: &Scalar) -> (r: Scalar)
        ensures
            r@ == (self@ + other@) % order(),
    {
        let bytes = scalar_plus(&self.bytes, &other.bytes);
        Scalar::of_bytes(bytes, Ghost((self@ + other@) % order()))
    }

    /// The difference.
    pub fn minus(&self, other: &Scalar) -> (r: Scalar)
        ensures
            r@ == (self@ - other@) % order(),
    {
        let bytes = scalar_minus(&self.bytes, &other.bytes);
        Scalar::of_bytes(bytes, Ghost((self@ - other@) % order()))
    }

    /// The product.
    pub fn times(&self, other: &Scalar) -> (r: Scalar)
        ensures
            r@ == (self@ * other@) % order(),
    {
        let bytes = scalar_times(&self.bytes, &other.bytes);
        let ghost v = (self@ * other@) % order();
        assert(0 <= v < order());
        Scalar::of_bytes(bytes, Ghost(v))
    }

    /// The inverse of a scalar other than zero.
    pub fn inverse(&self) -> (r: Scalar)
        requires
            self@ != 0,
        ensures
            r@ == inverse(self@),
            invertible(self@),
    {
        self.reveal_range();
        let bytes = scalar_inverted(&self.bytes);
        proof {
            let x = self@;
            let y = le_value(bytes@);
            let z = inverse(x);
            assert((x * y) % order() == 1);
            lemma_inverse_unique(x, y, z);
        }
        Scalar { bytes }
    }
}

/// A point, in its one encoding.
#[derive(Debug, Clone, Copy, PartialEq, Eq)]
pub struct Point {
    bytes: [u8; 32],
}

impl View for Point {
    type V = int;

    closed spec fn view(&self) -> int {
        point_log(self.bytes@)->0
    }
}

impl Point {
    #[verifier::type_invariant]
    spec fn encoded(self) -> bool {
        point_log(self.bytes@) matches Some(n) && self.bytes@ == point_bytes(n) && 0 <= n
            < points()
    }

    /// The point that is neutral for addition.
    pub fn zero() -> (r: Point)
        ensures
            r@ == 0,
    {
        let bytes = point_zero();
        Point { bytes }
    }

    /// The base point times a scalar.
    pub fn base(s: &Scalar) -> (r: Point)
        ensures
            r@ == 8 * s@,
    {
        s.reveal_range();
        let bytes = base_times(&s.bytes);
        Point { bytes }
    }

    /// The point that 32 bytes encode.
    pub fn decode(b: &[u8; 32]) -> (r: Option<Point>)
        ensures
            r is Some == point_log(b@) is Some,
            r matches Some(p) ==> Some(p@) == point_log(b@),
    {
        if point_decodes(b) {
            let zero = point_zero();
            let bytes = point_plus(b, &zero);
            let ghost n = point_log(b@)->0;
            proof {
                assert(0 <= n < points());
                vstd::arithmetic::div_mod::lemma_small_mod(n as nat, points() as nat);
            }
            Some(Point { bytes })
        } else {
            None
        }
    }

    /// The encoding.
    pub fn encode(&self) -> (r: [u8; 32])
        ensures
            r@ == point_bytes(self@),
            point_log(r@) == Some(self@),
    {
        proof {
            use_type_invariant(self);
        }
        self.bytes
    }

    /// The sum.
    pub fn plus(&self, other: &Point) -> (r: Point)
        ensures
            r@ == (self@ + other@) % points(),
    {
        proof {
            use_type_invariant(self);
            use_type_invariant(other);
        }
        let bytes = point_plus(&self.bytes, &other.bytes);
        Point { bytes }
    }

    /// The difference.
    pub fn minus(&self, other: &Point) -> (r: Point)
        ensures
            r@ == (self@ - other@) % points(),
    {
        proof {
            use_type_invariant(self);
            use_type_invariant(other);
        }
        let bytes = point_minus(&self.bytes, &other.bytes);
        Point { bytes }
    }

    /// The point times a scalar.
    pub fn times(&self, s: &Scalar) -> (r: Point)
        ensures
            r@ == (s@ * self@) % points(),
    {
        s.reveal_range();
        proof {
            use_type_invariant(self);
        }
        let bytes = point_times(&s.bytes, &self.bytes);
        let ghost v = (s@ * self@) % points();
        assert(0 <= v < points());
        Point { bytes }
    }

    /// Whether two points are the same.
    pub fn same(&self, other: &Point) -> (r: bool)
        ensures
            r == (self@ == other@),
    {
        proof {
            use_type_invariant(self);
            use_type_invariant(other);
        }
        same_array(&self.bytes, &other.bytes)
    }
}

} // verus!
