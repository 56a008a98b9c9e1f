//! Threshold root keys: M of K members sign under one group key.
//!
//! A dealer chooses a polynomial over the scalars whose degree is one below
//! the threshold. The group key is the base point times its constant
//! coefficient; each member holds the value at their index. The base point
//! times each coefficient is published, so every member can check their own
//! share. To sign, a qualifying set of members publishes nonce points, each
//! contributes a partial signature over the sum of these points, and the
//! partials add up to one Ed25519 signature under the group key. A wrong
//! partial stops the ceremony and names its member.

pub mod any_order;
pub mod material;

use vstd::bytes::spec_u64_to_le_bytes;
use vstd::prelude::*;

use crate::bytes::{append, array_of, utf8};
use crate::canon::CanonicalWriter;
use crate::curve::{
    congruent, digest_scalar, ed25519_accepts, inverse, invertible, le_value, order, point_bytes,
    point_log, points, scalar_bytes, Point, Scalar,
};
use crate::digest::{sha256, sha256_of};
use crate::json::{
    json_check, json_fault, json_member, json_pretty, json_read, json_write,
    member_views, number_items, text_list, ItemView, JsonMember, MemberView,
};
use crate::lagrange::{interpolated, lagrange, poly, power, separated};
use crate::sets::texts;
use crate::text::{
    cat2, cat3, cat4, cat5, count, decimal, hex, hex_text, number, same_text, unhex,
    unhex_text,
};
use crate::{ErrorView, SignatifError};

verus! {

/// The label of the algorithm.
pub const ALGORITHM: &'static str = "ed25519-threshold-schnorr/feldman";

/// The public half of a group.
#[derive(Debug, PartialEq, Eq)]
pub struct GroupKey {
    /// How many members are needed to sign.
    pub threshold: usize,
    /// How many members there are.
    pub members: usize,
    /// The group public key, in hexadecimal.
    pub group_public: String,
    /// The commitments to the coefficients, in hexadecimal; the first is the
    /// group key.
    pub commitments: Vec<String>,
    /// The label of the algorithm.
    pub algorithm: String,
}

/// A group key as a mathematical value.
#[verifier::ext_equal]
pub struct GroupView {
    /// See [`GroupKey::threshold`].
    pub threshold: usize,
    /// See [`GroupKey::members`].
    pub members: usize,
    /// See [`GroupKey::group_public`].
    pub group_public: Seq<char>,
    /// See [`GroupKey::commitments`].
    pub commitments: Seq<Seq<char>>,
    /// See [`GroupKey::algorithm`].
    pub algorithm: Seq<char>,
}

impl View for GroupKey {
    type V = GroupView;

    open spec fn view(&self) -> GroupView {
        GroupView {
            threshold: self.threshold,
            members: self.members,
            group_public: self.group_public@,
            commitments: texts(self.commitments@),
            algorithm: self.algorithm@,
        }
    }
}

/// A member's share: secret to that member.
#[derive(Debug, PartialEq, Eq)]
pub struct MemberShare {
    /// The member's index, from 1.
    pub index: u32,
    /// The share, in hexadecimal.
    pub share: String,
}

/// A share as a mathematical value.
#[verifier::ext_equal]
pub struct ShareView {
    /// See [`MemberShare::index`].
    pub index: u32,
    /// See [`MemberShare::share`].
    pub share: Seq<char>,
}

impl View for MemberShare {
    type V = ShareView;

    open spec fn view(&self) -> ShareView {
        ShareView { index: self.index, share: self.share@ }
    }
}

impl Clone for MemberShare {
    fn clone(&self) -> (r: MemberShare)
        ensures
            r@ == self@,
    {
        MemberShare { index: self.index, share: self.share.clone() }
    }
}

/// What one member contributes to a signature.
#[derive(Debug, PartialEq, Eq)]
pub struct PartialSignature {
    /// The member's index.
    pub index: u32,
    /// The member's nonce point, in hexadecimal.
    pub nonce: String,
    /// The partial scalar, in hexadecimal.
    pub partial: String,
}

/// A partial signature as a mathematical value.
#[verifier::ext_equal]
pub struct PartialView {
    /// See [`PartialSignature::index`].
    pub index: u32,
    /// See [`PartialSignature::nonce`].
    pub nonce: Seq<char>,
    /// See [`PartialSignature::partial`].
    pub partial: Seq<char>,
}

impl View for PartialSignature {
    type V = PartialView;

    open spec fn view(&self) -> PartialView {
        PartialView { index: self.index, nonce: self.nonce@, partial: self.partial@ }
    }
}

/// A signature under the group key, and who signed.
#[derive(Debug, PartialEq, Eq)]
pub struct GroupSignature {
    /// The point half, in hexadecimal.
    pub r: String,
    /// The scalar half, in hexadecimal.
    pub s: String,
    /// The indices of the signers, ascending.
    pub signers: Vec<u32>,
    /// The label of the algorithm.
    pub algorithm: String,
}

/// A group signature as a mathematical value.
#[verifier::ext_equal]
pub struct GroupSignatureView {
    /// See [`GroupSignature::r`].
    pub r: Seq<char>,
    /// See [`GroupSignature::s`].
    pub s: Seq<char>,
    /// See [`GroupSignature::signers`].
    pub signers: Seq<u32>,
    /// See [`GroupSignature::algorithm`].
    pub algorithm: Seq<char>,
}

impl View for GroupSignature {
    type V = GroupSignatureView;

    open spec fn view(&self) -> GroupSignatureView {
        GroupSignatureView {
            r: self.r@,
            s: self.s@,
            signers: self.signers@,
            algorithm: self.algorithm@,
        }
    }
}

/// The result of a function over views.
pub open spec fn viewed<T: View>(r: Result<T, SignatifError>) -> Result<T::V, ErrorView> {
    match r {
        Ok(v) => Ok(v@),
        Err(e) => Err(e@),
    }
}

/// The 32 bytes that 64 hexadecimal digits denote.
pub open spec fn unhex32_of(s: Seq<char>) -> Option<Seq<u8>> {
    if s.len() == 64 {
        unhex_text(s)
    } else {
        None
    }
}

/// Renders 32 bytes in hexadecimal.
pub fn hex32(bytes: &[u8; 32]) -> (r: String)
    ensures
        r@ == hex_text(bytes@),
{
    hex(bytes.as_slice())
}

/// Reads 32 bytes from 64 hexadecimal digits.
pub fn unhex32(s: &str) -> (r: Option<[u8; 32]>)
    ensures
        r is Some == unhex32_of(s@) is Some,
        r matches Some(b) ==> Some(b@) == unhex32_of(s@),
{
    match unhex(s) {
        None => None,
        Some(v) => array_of::<32>(v.as_slice()),
    }
}

/// The rendering of 32 bytes reads back.
proof fn lemma_hex32(bytes: Seq<u8>)
    requires
        bytes.len() == 32,
    ensures
        unhex32_of(hex_text(bytes)) == Some(bytes),
{
    crate::text::unhex_inverts_hex(bytes);
}

/// The scalar of a share.
pub open spec fn share_scalar(share: ShareView) -> Result<int, ErrorView> {
    match unhex32_of(share.share) {
        None => Err(
            ErrorView::Validation(
                "share "@ + decimal(share.index as nat) + " is not 32-byte hex"@,
            ),
        ),
        Some(b) => if le_value(b) < order() {
            Ok(le_value(b))
        } else {
            Err(
                ErrorView::Validation(
                    "share "@ + decimal(share.index as nat)
                        + " is not a canonical scalar (reduced mod l)"@,
                ),
            )
        },
    }
}

fn scalar_of(share: &MemberShare) -> (r: Result<Scalar, SignatifError>)
    ensures
        viewed(r) == share_scalar(share@),
{
    let index = number(share.index as u64);
    match unhex32(share.share.as_str()) {
        None => Err(
            SignatifError::Validation(cat3("share ", index.as_str(), " is not 32-byte hex")),
        ),
        Some(b) => match Scalar::decode(&b) {
            Some(s) => Ok(s),
            None => Err(
                SignatifError::Validation(
                    cat3(
                        "share ",
                        index.as_str(),
                        " is not a canonical scalar (reduced mod l)",
                    ),
                ),
            ),
        },
    }
}

/// The error of a text that is not 32 bytes of hexadecimal.
pub open spec fn encoding_error(text: Seq<char>) -> ErrorView {
    ErrorView::Validation("`"@ + text + "` is not a 32-byte point encoding"@)
}

/// The number of the point that a text encodes, or an error: the given one
/// when the bytes are no point.
pub open spec fn point_of(text: Seq<char>, bad: ErrorView) -> Result<int, ErrorView> {
    match unhex32_of(text) {
        None => Err(encoding_error(text)),
        Some(b) => match point_log(b) {
            Some(n) => Ok(n),
            None => Err(bad),
        },
    }
}

fn compressed(point_hex: &str) -> (r: Result<[u8; 32], SignatifError>)
    ensures
        match unhex32_of(point_hex@) {
            Some(b) => r matches Ok(a) && a@ == b,
            None => r matches Err(e) && e@ == encoding_error(point_hex@),
        },
{
    match unhex32(point_hex) {
        Some(b) => Ok(b),
        None => Err(
            SignatifError::Validation(cat3("`", point_hex, "` is not a 32-byte point encoding")),
        ),
    }
}

fn decode_point(point_hex: &str, bad: SignatifError) -> (r: Result<Point, SignatifError>)
    ensures
        viewed(r) == point_of(point_hex@, bad@),
{
    match compressed(point_hex) {
        Err(e) => Err(e),
        Ok(b) => match Point::decode(&b) {
            Some(p) => Ok(p),
            None => Err(bad),
        },
    }
}

/// The error of a commitment that is no point.
pub open spec fn commitment_error() -> ErrorView {
    ErrorView::Validation("a commitment is not a valid point"@)
}

/// The points of the commitments, or the first error.
pub open spec fn commitment_points(commitments: Seq<Seq<char>>) -> Result<Seq<int>, ErrorView>
    decreases commitments.len(),
{
    if commitments.len() == 0 {
        Ok(Seq::empty())
    } else {
        match commitment_points(commitments.drop_last()) {
            Err(e) => Err(e),
            Ok(before) => match point_of(commitments.last(), commitment_error()) {
                Err(e) => Err(e),
                Ok(n) => Ok(before.push(n)),
            },
        }
    }
}

proof fn lemma_commitment_error(commitments: Seq<Seq<char>>, k: int)
    requires
        0 <= k <= commitments.len(),
        commitment_points(commitments.take(k)) is Err,
    ensures
        commitment_points(commitments) == commitment_points(commitments.take(k)),
    decreases commitments.len() - k,
{
    if k < commitments.len() {
        assert(commitments.take(k + 1).drop_last() =~= commitments.take(k));
        lemma_commitment_error(commitments, k + 1);
    } else {
        assert(commitments.take(k) =~= commitments);
    }
}

/// The points of a list as numbers.
pub open spec fn point_numbers(s: Seq<Point>) -> Seq<int> {
    s.map_values(|p: Point| p@)
}

fn decode_commitments(commitments: &Vec<String>) -> (r: Result<Vec<Point>, SignatifError>)
    ensures
        match commitment_points(texts(commitments@)) {
            Ok(numbers) => r matches Ok(v) && point_numbers(v@) == numbers,
            Err(f) => r matches Err(e) && e@ == f,
        },
{
    let ghost all = texts(commitments@);
    let mut out: Vec<Point> = Vec::new();
    let mut i: usize = 0;
    assert(all.take(0) =~= Seq::<Seq<char>>::empty());
    assert(point_numbers(out@) =~= Seq::<int>::empty());
    while i < commitments.len()
        invariant
            i <= commitments.len(),
            all == texts(commitments@),
            commitment_points(all.take(i as int)) == Ok::<Seq<int>, ErrorView>(
                point_numbers(out@),
            ),
        decreases commitments.len() - i,
    {
        proof {
            assert(all.take(i + 1).drop_last() =~= all.take(i as int));
            assert(all.take(i + 1).last() == commitments@[i as int]@);
        }
        let bad = SignatifError::invalid("a commitment is not a valid point");
        match decode_point(commitments[i].as_str(), bad) {
            Err(e) => {
                proof {
                    lemma_commitment_error(all, i + 1);
                }
                return Err(e);
            },
            Ok(p) => {
                let ghost before = point_numbers(out@);
                out.push(p);
                assert(point_numbers(out@) =~= before.push(p@));
            },
        }
        i += 1;
    }
    assert(all.take(i as int) =~= all);
    Ok(out)
}

/// The member indices as points of the polynomial.
pub open spec fn as_points(s: Seq<u32>) -> Seq<int> {
    s.map_values(|x: u32| x as int)
}

/// Whether the differences of an index to the other indices of a list can be
/// inverted.
pub open spec fn stands_apart(index: u32, signers: Seq<u32>) -> bool {
    forall|j: int|
        0 <= j < signers.len() && #[trigger] signers[j] != index ==> invertible(
            (signers[j] - index) % order(),
        )
}

/// The Lagrange coefficient at zero of an index among signers.
fn lagrange_zero(index: u32, signers: &[u32]) -> (r: Scalar)
    ensures
        r@ == lagrange(index as int, as_points(signers@)),
        stands_apart(index, signers@),
{
    let ghost all = as_points(signers@);
    let me = Scalar::of_number(index as u64);
    let mut coeff = Scalar::of_number(1);
    let mut i: usize = 0;
    assert(all.take(0) =~= Seq::<int>::empty());
    while i < signers.len()
        invariant
            i <= signers.len(),
            all == as_points(signers@),
            me@ == index,
            coeff@ == lagrange(index as int, all.take(i as int)),
            forall|j: int|
                0 <= j < i && #[trigger] signers@[j] != index ==> invertible(
                    (signers@[j] - index) % order(),
                ),
        decreases signers.len() - i,
    {
        proof {
            assert(all.take(i + 1).drop_last() =~= all.take(i as int));
            assert(all.take(i + 1).last() == signers@[i as int]);
        }
        if signers[i] != index {
            let x = Scalar::of_number(signers[i] as u64);
            let d = x.minus(&me);
            assert(d@ != 0);
            let inv = d.inverse();
            coeff = coeff.times(&x.times(&inv));
        }
        i += 1;
    }
    assert(all.take(i as int) =~= all);
    coeff
}

/// The tag in front of ceremony seeds.
pub const CEREMONY_TAG: &'static str = "UNIDPP-SIGNATIF/CEREMONY";

/// The tag between the ceremony and the number of a coefficient.
pub const COEFFICIENT_TAG: &'static str = "|f|";

/// The tag in front of nonces.
pub const NONCE_TAG: &'static str = "UNIDPP-SIGNATIF/CEREMONY/NONCE";

/// A coefficient of the polynomial that a seed determines.
pub open spec fn coefficient(seed: Seq<u8>, j: int) -> int {
    digest_scalar(
        utf8(hex_text(sha256_of(utf8(CEREMONY_TAG@) + seed))) + utf8(COEFFICIENT_TAG@)
            + spec_u64_to_le_bytes(j as u64),
    )
}

/// The coefficients of the polynomial that a seed determines.
pub open spec fn coefficients(seed: Seq<u8>, threshold: int) -> Seq<int> {
    Seq::new(threshold as nat, |j: int| coefficient(seed, j))
}

/// Whether the encoding of a point decodes to the point.
pub open spec fn readable(n: int) -> bool {
    point_log(point_bytes(n)) == Some(n)
}

/// Whether numbers are scalars, and the base point times each can be read from
/// its encoding.
pub open spec fn committed(f: Seq<int>) -> bool {
    forall|j: int|
        0 <= j < f.len() ==> 0 <= #[trigger] f[j] < order() && readable(8 * f[j])
            && point_bytes(8 * f[j]).len() == 32
}

/// The commitments to coefficients.
pub open spec fn dealt_commitments(f: Seq<int>) -> Seq<Seq<char>> {
    f.map_values(|c: int| hex_text(point_bytes(8 * c)))
}

/// The group key that belongs to coefficients.
pub open spec fn dealt_group(f: Seq<int>, members: usize) -> GroupView {
    GroupView {
        threshold: f.len() as usize,
        members,
        group_public: hex_text(point_bytes(8 * f[0])),
        commitments: dealt_commitments(f),
        algorithm: ALGORITHM@,
    }
}

/// The share of an index that belongs to coefficients.
pub open spec fn dealt_share(f: Seq<int>, index: u32) -> ShareView {
    ShareView { index, share: hex_text(scalar_bytes(poly(f, index as int))) }
}

/// The scalars of a list as numbers.
pub open spec fn scalar_numbers(s: Seq<Scalar>) -> Seq<int> {
    s.map_values(|x: Scalar| x@)
}

fn deal_coefficients(seed: &[u8], threshold: usize) -> (r: Vec<Scalar>)
    ensures
        scalar_numbers(r@) == coefficients(seed@, threshold as int),
{
    let mut data: Vec<u8> = Vec::new();
    append(&mut data, CEREMONY_TAG.as_bytes());
    append(&mut data, seed);
    assert(data@ =~= utf8(CEREMONY_TAG@) + seed@);
    let ceremony = sha256(data.as_slice()).hex();
    let mut out: Vec<Scalar> = Vec::new();
    let mut j: usize = 0;
    let ghost all = coefficients(seed@, threshold as int);
    assert(scalar_numbers(out@) =~= all.take(0));
    while j < threshold
        invariant
            j <= threshold,
            all == coefficients(seed@, threshold as int),
            ceremony@ == hex_text(sha256_of(utf8(CEREMONY_TAG@) + seed@)),
            scalar_numbers(out@) == all.take(j as int),
        decreases threshold - j,
    {
        let mut w = CanonicalWriter::new();
        w.write_u64(j as u64);
        let place = w.into_bytes();
        assert(place@ =~= spec_u64_to_le_bytes(j as u64));
        let c = Scalar::digest(
            ceremony.as_str().as_bytes(),
            COEFFICIENT_TAG.as_bytes(),
            place.as_slice(),
        );
        let ghost before = scalar_numbers(out@);
        out.push(c);
        assert(scalar_numbers(out@) =~= before.push(all[j as int]));
        assert(before.push(all[j as int]) =~= all.take(j + 1));
        j += 1;
    }
    assert(all.take(j as int) =~= all);
    out
}

fn evaluate(f: &Vec<Scalar>, index: u32) -> (r: Scalar)
    ensures
        r@ == poly(scalar_numbers(f@), index as int),
{
    let ghost all = scalar_numbers(f@);
    let x = Scalar::of_number(index as u64);
    let mut value = Scalar::of_number(0);
    let mut i: usize = f.len();
    assert(all.skip(i as int) =~= Seq::<int>::empty());
    while i > 0
        invariant
            i <= f.len(),
            all == scalar_numbers(f@),
            x@ == index,
            value@ == poly(all.skip(i as int), index as int),
        decreases i,
    {
        proof {
            assert(all.skip(i - 1).skip(1) =~= all.skip(i as int));
            assert(all.skip(i - 1)[0] == f@[i - 1]@);
            let v = value@ * x@;
            crate::lagrange::lemma_congruent_mod(v);
            crate::lagrange::lemma_congruent_mod(f@[i - 1]@);
            crate::lagrange::lemma_congruent_sum(v % order(), v, f@[i - 1]@, f@[i - 1]@);
            crate::lagrange::lemma_congruent_same(v % order() + f@[i - 1]@, v + f@[i - 1]@);
        }
        value = value.times(&x).plus(&f[i - 1]);
        i -= 1;
    }
    assert(all.skip(0) =~= all);
    value
}

/// The error of a quorum that cannot be.
pub open spec fn degenerate_error(threshold: usize, members: usize) -> ErrorView {
    ErrorView::Validation(
        "a "@ + decimal(threshold as nat) + "-of-"@ + decimal(members as nat)
            + " quorum is degenerate (need 1 <= M <= K)"@,
    )
}

/// The shares of a list as mathematical values.
pub open spec fn share_views(s: Seq<MemberShare>) -> Seq<ShareView> {
    s.map_values(|m: MemberShare| m@)
}

/// Makes a group and its shares from a seed. The polynomial lives only here.
/// Every share verifies against the group's commitments.
pub fn generate(seed: &[u8], threshold: usize, members: usize) -> (r: Result<
    (GroupKey, Vec<MemberShare>),
    SignatifError,
>)
    ensures
        r is Ok == (1 <= threshold <= members),
        r matches Ok(x) ==> {
            let f = coefficients(seed@, threshold as int);
            &&& committed(f)
            &&& x.0@ == dealt_group(f, members)
            &&& share_views(x.1@) == Seq::new(
                (members as u32) as nat,
                |i: int| dealt_share(f, (i + 1) as u32),
            )
            &&& forall|i: int|
                0 <= i < x.1@.len() ==> share_check(x.0@, (#[trigger] x.1@[i])@) == Ok::<
                    bool,
                    ErrorView,
                >(true)
        },
        r matches Err(e) ==> e@ == degenerate_error(threshold, members),
{
    if threshold == 0 || threshold > members {
        let t = count(threshold);
        let m = count(members);
        return Err(
            SignatifError::Validation(
                cat5(
                    "a ",
                    t.as_str(),
                    "-of-",
                    m.as_str(),
                    " quorum is degenerate (need 1 <= M <= K)",
                ),
            ),
        );
    }
    let f = deal_coefficients(seed, threshold);
    let ghost all = coefficients(seed@, threshold as int);
    assert(f@.len() == scalar_numbers(f@).len());
    let mut commitments: Vec<String> = Vec::new();
    let mut j: usize = 0;
    assert(texts(commitments@) =~= dealt_commitments(all).take(0));
    while j < f.len()
        invariant
            j <= f.len(),
            all == scalar_numbers(f@),
            texts(commitments@) == dealt_commitments(all).take(j as int),
            committed(all.take(j as int)),
        decreases f.len() - j,
    {
        f[j].reveal_range();
        let p = Point::base(&f[j]);
        let b = p.encode();
        let ghost before = texts(commitments@);
        commitments.push(hex32(&b));
        assert(texts(commitments@) =~= before.push(dealt_commitments(all)[j as int]));
        assert(before.push(dealt_commitments(all)[j as int]) =~= dealt_commitments(all).take(
            j + 1,
        ));
        assert forall|k: int| 0 <= k < j + 1 implies 0 <= #[trigger] all.take(j + 1)[k] < order()
            && readable(8 * all.take(j + 1)[k]) && point_bytes(8 * all.take(j + 1)[k]).len()
            == 32 by {
            if k < j {
                assert(all.take(j as int)[k] == all.take(j + 1)[k]);
            }
        }
        j += 1;
    }
    assert(all.take(j as int) =~= all);
    assert(dealt_commitments(all).take(j as int) =~= dealt_commitments(all));
    let last = members as u32;
    let mut shares: Vec<MemberShare> = Vec::new();
    let ghost want = Seq::new(last as nat, |i: int| dealt_share(all, (i + 1) as u32));
    let mut i: u32 = 0;
    assert(share_views(shares@) =~= want.take(0));
    while i < last
        invariant
            i <= last,
            all == scalar_numbers(f@),
            want == Seq::new(last as nat, |i: int| dealt_share(all, (i + 1) as u32)),
            share_views(shares@) == want.take(i as int),
        decreases last - i,
    {
        let index: u32 = i + 1;
        let value = evaluate(&f, index);
        let b = value.encode();
        let ghost before = share_views(shares@);
        shares.push(MemberShare { index, share: hex32(&b) });
        assert(share_views(shares@) =~= before.push(want[i as int]));
        assert(before.push(want[i as int]) =~= want.take(i + 1));
        i += 1;
    }
    assert(want.take(i as int) =~= want);
    let group_public = commitments[0].clone();
    assert(texts(commitments@)[0] == dealt_commitments(all)[0]);
    let group = GroupKey {
        threshold,
        members,
        group_public,
        commitments,
        algorithm: ALGORITHM.to_owned(),
    };
    proof {
        assert(group@ == dealt_group(all, members));
        assert forall|i: int| 0 <= i < shares@.len() implies share_check(
            group@,
            (#[trigger] shares@[i])@,
        ) == Ok::<bool, ErrorView>(true) by {
            assert(share_views(shares@)[i] == want[i]);
            lemma_dealt_share_verifies(all, members, (i + 1) as u32);
        }
    }
    Ok((group, shares))
}

/// The number of the point that the commitments determine for an index.
pub open spec fn member_number(numbers: Seq<int>, x: int) -> int
    decreases numbers.len(),
{
    if numbers.len() == 0 {
        0
    } else {
        (member_number(numbers.drop_last(), x) + (power(x, (numbers.len() - 1) as nat)
            * numbers.last()) % points()) % points()
    }
}

fn member_point(commitments: &Vec<Point>, index: u32) -> (r: Point)
    ensures
        r@ == member_number(point_numbers(commitments@), index as int),
{
    let ghost all = point_numbers(commitments@);
    let x = Scalar::of_number(index as u64);
    let mut expected = Point::zero();
    let mut xs = Scalar::of_number(1);
    let mut i: usize = 0;
    assert(all.take(0) =~= Seq::<int>::empty());
    while i < commitments.len()
        invariant
            i <= commitments.len(),
            all == point_numbers(commitments@),
            x@ == index,
            xs@ == power(index as int, i as nat),
            expected@ == member_number(all.take(i as int), index as int),
        decreases commitments.len() - i,
    {
        proof {
            assert(all.take(i + 1).drop_last() =~= all.take(i as int));
            assert(all.take(i + 1).last() == commitments@[i as int]@);
        }
        expected = expected.plus(&commitments[i].times(&xs));
        xs = xs.times(&x);
        i += 1;
    }
    assert(all.take(i as int) =~= all);
    expected
}

/// What checking a share against the group gives.
pub open spec fn share_check(group: GroupView, share: ShareView) -> Result<bool, ErrorView> {
    if share.index == 0 || share.index > group.members {
        Err(
            ErrorView::Validation(
                "member index "@ + decimal(share.index as nat) + " is outside 1..="@ + decimal(
                    group.members as nat,
                ),
            ),
        )
    } else if group.commitments.len() != group.threshold {
        Err(
            ErrorView::Validation("the group key does not carry threshold-many commitments"@),
        )
    } else {
        match commitment_points(group.commitments) {
            Err(e) => Err(e),
            Ok(numbers) => match share_scalar(share) {
                Err(e) => Err(e),
                Ok(s) => Ok(8 * s == member_number(numbers, share.index as int)),
            },
        }
    }
}

/// Checks a member's share against the group's commitments: the base point
/// times the share must be the point that the commitments determine.
pub fn verify_share(group: &GroupKey, share: &MemberShare) -> (r: Result<bool, SignatifError>)
    ensures
        crate::outcome(r) == share_check(group@, share@),
{
    if share.index == 0 || share.index as usize > group.members {
        let i = number(share.index as u64);
        let m = count(group.members);
        return Err(
            SignatifError::Validation(
                cat4("member index ", i.as_str(), " is outside 1..=", m.as_str()),
            ),
        );
    }
    assert(group.commitments@.len() == texts(group.commitments@).len());
    if group.commitments.len() != group.threshold {
        return Err(
            SignatifError::invalid("the group key does not carry threshold-many commitments"),
        );
    }
    let commitments = match decode_commitments(&group.commitments) {
        Err(e) => {
            return Err(e);
        },
        Ok(c) => c,
    };
    let expected = member_point(&commitments, share.index);
    match scalar_of(share) {
        Err(e) => Err(e),
        Ok(s) => Ok(Point::base(&s).same(&expected)),
    }
}

/// The value of a polynomial, summed from the constant coefficient on.
spec fn poly_up(f: Seq<int>, x: int) -> int
    decreases f.len(),
{
    if f.len() == 0 {
        0
    } else {
        (poly_up(f.drop_last(), x) + power(x, (f.len() - 1) as nat) * f.last()) % order()
    }
}

proof fn lemma_power_start(x: int, n: nat)
    ensures
        congruent(power(x, n + 1), power(x, n) * x),
{
    crate::lagrange::lemma_congruent_mod(power(x, n) * x);
}

proof fn lemma_poly_up_start(f: Seq<int>, x: int)
    requires
        f.len() > 0,
    ensures
        congruent(poly_up(f, x), poly_up(f.skip(1), x) * x + f[0]),
    decreases f.len(),
{
    let short = f.drop_last();
    let n = (f.len() - 1) as nat;
    let c = f.last();
    crate::lagrange::lemma_congruent_mod(poly_up(short, x) + power(x, n) * c);
    if f.len() == 1 {
        assert(f.skip(1) =~= Seq::<int>::empty());
        assert(short =~= Seq::<int>::empty());
        assert(power(x, 0) == 1);
        assert(1 * c == c);
        assert(0 * x == 0);
    } else {
        lemma_poly_up_start(short, x);
        assert(f.skip(1).drop_last() =~= short.skip(1));
        assert(f.skip(1).last() == c);
        let a = poly_up(short.skip(1), x);
        let b = power(x, (n - 1) as nat);
        // poly_up(f) == (a * x + f0) + b * x * c
        crate::lagrange::lemma_congruent_mod(c);
        lemma_power_start(x, (n - 1) as nat);
        crate::lagrange::lemma_congruent_product(power(x, n), b * x, c, c);
        crate::lagrange::lemma_congruent_sum(
            poly_up(short, x),
            a * x + f[0],
            power(x, n) * c,
            (b * x) * c,
        );
        crate::lagrange::lemma_congruent_trans(
            poly_up(f, x),
            poly_up(short, x) + power(x, n) * c,
            (a * x + f[0]) + (b * x) * c,
        );
        // poly_up(f.skip(1)) * x + f0 == (a + b * c) * x + f0
        crate::lagrange::lemma_congruent_mod(a + b * c);
        crate::lagrange::lemma_congruent_mod(x);
        crate::lagrange::lemma_congruent_mod(f[0]);
        crate::lagrange::lemma_congruent_product(
            (a + b * c) % order(),
            a + b * c,
            x,
            x,
        );
        crate::lagrange::lemma_congruent_sum(
            (a + b * c) % order() * x,
            (a + b * c) * x,
            f[0],
            f[0],
        );
        assert((a + b * c) * x + f[0] == (a * x + f[0]) + (b * x) * c) by (nonlinear_arith);
        crate::lagrange::lemma_congruent_sym(
            (a + b * c) % order() * x + f[0],
            (a + b * c) * x + f[0],
        );
        crate::lagrange::lemma_congruent_trans(
            poly_up(f, x),
            (a + b * c) * x + f[0],
            (a + b * c) % order() * x + f[0],
        );
    }
}

proof fn lemma_poly_up(f: Seq<int>, x: int)
    ensures
        poly_up(f, x) == poly(f, x),
        0 <= poly(f, x) < order(),
    decreases f.len(),
{
    if f.len() > 0 {
        lemma_poly_up(f.skip(1), x);
        lemma_poly_up_start(f, x);
        crate::lagrange::lemma_congruent_same(poly_up(f, x), poly(f.skip(1), x) * x + f[0]);
        vstd::arithmetic::div_mod::lemma_small_mod(poly_up(f, x) as nat, order() as nat);
    }
}

proof fn lemma_eightfold(a: int)
    ensures
        (8 * a) % points() == 8 * (a % order()),
{
    let q = a / order();
    let r = a % order();
    let l = order();
    let p = points();
    assert(8 * a == q * p + 8 * r) by (nonlinear_arith)
        requires
            a == l * q + r,
            p == 8 * l,
    ;
    assert(0 <= 8 * r < points());
    vstd::arithmetic::div_mod::lemma_fundamental_div_mod_converse(8 * a, points(), q, 8 * r);
}

proof fn lemma_member_number(f: Seq<int>, numbers: Seq<int>, x: int)
    requires
        numbers == f.map_values(|c: int| 8 * c),
    ensures
        member_number(numbers, x) == 8 * poly_up(f, x),
    decreases f.len(),
{
    if f.len() > 0 {
        assert(numbers.drop_last() =~= f.drop_last().map_values(|c: int| 8 * c));
        lemma_member_number(f.drop_last(), numbers.drop_last(), x);
        let p = power(x, (f.len() - 1) as nat);
        let c = f.last();
        let before = poly_up(f.drop_last(), x);
        assert(p * (8 * c) == 8 * (p * c)) by (nonlinear_arith);
        lemma_eightfold(p * c);
        let rest = (p * c) % order();
        lemma_eightfold(before + rest);
        crate::lagrange::lemma_congruent_mod(p * c);
        crate::lagrange::lemma_congruent_mod(before);
        crate::lagrange::lemma_congruent_sum(before, before, rest, p * c);
        crate::lagrange::lemma_congruent_same(before + rest, before + p * c);
    }
}

/// The commitments to coefficients read back.
proof fn lemma_dealt_commitments(f: Seq<int>)
    requires
        committed(f),
    ensures
        commitment_points(dealt_commitments(f)) == Ok::<Seq<int>, ErrorView>(
            f.map_values(|c: int| 8 * c),
        ),
    decreases f.len(),
{
    let numbers = f.map_values(|c: int| 8 * c);
    if f.len() == 0 {
        assert(numbers =~= Seq::<int>::empty());
    } else {
        let short = f.drop_last();
        assert forall|j: int| 0 <= j < short.len() implies 0 <= #[trigger] short[j] < order()
            && readable(8 * short[j]) && point_bytes(8 * short[j]).len() == 32 by {
            assert(short[j] == f[j]);
        }
        lemma_dealt_commitments(short);
        assert(dealt_commitments(f).drop_last() =~= dealt_commitments(short));
        let c = f[f.len() - 1];
        assert(dealt_commitments(f).last() == hex_text(point_bytes(8 * c)));
        lemma_hex32(point_bytes(8 * c));
        assert(numbers =~= short.map_values(|c: int| 8 * c).push(8 * c));
    }
}

/// Every share that belongs to the coefficients of a group verifies.
proof fn lemma_dealt_share_verifies(f: Seq<int>, members: usize, index: u32)
    requires
        committed(f),
        0 < f.len() <= usize::MAX,
        1 <= index <= members,
    ensures
        share_check(dealt_group(f, members), dealt_share(f, index)) == Ok::<bool, ErrorView>(true),
{
    lemma_dealt_commitments(f);
    lemma_dealt_share_scalar(f, index);
    lemma_member_number(f, f.map_values(|c: int| 8 * c), index as int);
    lemma_poly_up(f, index as int);
}

/// The commitments of a dealt group determine the dealt share of an index.
pub(crate) proof fn lemma_dealt_point(f: Seq<int>, index: u32)
    requires
        committed(f),
    ensures
        commitment_points(dealt_commitments(f)) == Ok::<Seq<int>, ErrorView>(
            f.map_values(|c: int| 8 * c),
        ),
        member_number(f.map_values(|c: int| 8 * c), index as int) == 8 * poly(f, index as int),
{
    lemma_dealt_commitments(f);
    lemma_member_number(f, f.map_values(|c: int| 8 * c), index as int);
    lemma_poly_up(f, index as int);
}

proof fn lemma_dealt_share_scalar(f: Seq<int>, index: u32)
    ensures
        share_scalar(dealt_share(f, index)) == Ok::<int, ErrorView>(poly(f, index as int)),
        0 <= poly(f, index as int) < order(),
{
    lemma_poly_up(f, index as int);
    let v = poly(f, index as int);
    crate::curve::lemma_scalar_bytes(v);
    lemma_hex32(scalar_bytes(v));
}

/// Numbers in decimal, separated by commas.
pub open spec fn joined_numbers(s: Seq<u32>) -> Seq<char>
    decreases s.len(),
{
    if s.len() == 0 {
        ""@
    } else if s.len() == 1 {
        decimal(s[0] as nat)
    } else {
        joined_numbers(s.drop_last()) + ", "@ + decimal(s.last() as nat)
    }
}

/// Renders a list of numbers in square brackets.
pub fn number_list(s: &[u32]) -> (r: String)
    ensures
        r@ == "["@ + joined_numbers(s@) + "]"@,
{
    let mut out = String::new();
    let mut i: usize = 0;
    assert(s@.take(0) =~= Seq::<u32>::empty());
    proof {
        reveal_strlit("");
    }
    assert(out@ =~= ""@);
    while i < s.len()
        invariant
            i <= s.len(),
            out@ == joined_numbers(s@.take(i as int)),
        decreases s.len() - i,
    {
        let n = number(s[i] as u64);
        assert(s@.take(i + 1).drop_last() =~= s@.take(i as int));
        assert(s@.take(i + 1).last() == s@[i as int]);
        if i == 0 {
            out = n;
        } else {
            out.push_str(", ");
            out.push_str(n.as_str());
        }
        i += 1;
    }
    assert(s@.take(i as int) =~= s@);
    cat3("[", out.as_str(), "]")
}

/// The nonce of a share for a message.
pub open spec fn nonce_of(secret: int, message: Seq<u8>) -> int {
    digest_scalar(utf8(NONCE_TAG@) + scalar_bytes(secret) + message)
}

fn nonce_scalar(secret: &Scalar, message: &[u8]) -> (r: Scalar)
    ensures
        r@ == nonce_of(secret@, message@),
{
    let b = secret.encode();
    Scalar::digest(NONCE_TAG.as_bytes(), b.as_slice(), message)
}

/// The nonce point of a share for a message, in hexadecimal.
pub open spec fn nonce_point_of(share: ShareView, message: Seq<u8>) -> Result<
    Seq<char>,
    ErrorView,
> {
    match share_scalar(share) {
        Err(e) => Err(e),
        Ok(s) => Ok(hex_text(point_bytes(8 * nonce_of(s, message)))),
    }
}

/// First round: the member's nonce point for a message.
pub fn nonce_point(share: &MemberShare, message: &[u8]) -> (r: Result<String, SignatifError>)
    ensures
        viewed(r) == nonce_point_of(share@, message@),
        r is Ok ==> reads_back(share_scalar(share@)->Ok_0, message@),
{
    match scalar_of(share) {
        Err(e) => Err(e),
        Ok(secret) => {
            let nonce = nonce_scalar(&secret, message);
            let p = Point::base(&nonce);
            let b = p.encode();
            Ok(hex32(&b))
        },
    }
}

/// Whether the nonce point of a secret can be read from its encoding.
pub open spec fn reads_back(secret: int, message: Seq<u8>) -> bool {
    readable(8 * nonce_of(secret, message)) && point_bytes(8 * nonce_of(secret, message)).len()
        == 32
}

/// The sum of points, or the first error; the error of bytes that are no
/// point depends on the position.
pub open spec fn sum_of_points(items: Seq<Seq<char>>, bad: spec_fn(int) -> ErrorView) -> Result<
    int,
    ErrorView,
>
    decreases items.len(),
{
    if items.len() == 0 {
        Ok(0)
    } else {
        match sum_of_points(items.drop_last(), bad) {
            Err(e) => Err(e),
            Ok(before) => match point_of(items.last(), bad(items.len() - 1)) {
                Err(e) => Err(e),
                Ok(n) => Ok((before + n) % points()),
            },
        }
    }
}

proof fn lemma_sum_error(items: Seq<Seq<char>>, bad: spec_fn(int) -> ErrorView, k: int)
    requires
        0 <= k <= items.len(),
        sum_of_points(items.take(k), bad) is Err,
    ensures
        sum_of_points(items, bad) == sum_of_points(items.take(k), bad),
    decreases items.len() - k,
{
    if k < items.len() {
        assert(items.take(k + 1).drop_last() =~= items.take(k));
        lemma_sum_error(items, bad, k + 1);
    } else {
        assert(items.take(k) =~= items);
    }
}

/// The indices of nonce points.
pub open spec fn nonce_indices(s: Seq<(u32, String)>) -> Seq<u32> {
    s.map_values(|x: (u32, String)| x.0)
}

/// The encodings of nonce points.
pub open spec fn nonce_texts(s: Seq<(u32, String)>) -> Seq<Seq<char>> {
    s.map_values(|x: (u32, String)| x.1@)
}

/// The error of a nonce point that is no point.
pub open spec fn nonce_error(index: u32) -> ErrorView {
    ErrorView::Validation("member "@ + decimal(index as nat) + ": bad nonce point"@)
}

fn group_nonce(nonce_points: &[(u32, String)]) -> (r: Result<Point, SignatifError>)
    ensures
        viewed(r) == sum_of_points(
            nonce_texts(nonce_points@),
            |i: int| nonce_error(nonce_indices(nonce_points@)[i]),
        ),
{
    let ghost all = nonce_texts(nonce_points@);
    let ghost bad = |i: int| nonce_error(nonce_indices(nonce_points@)[i]);
    let mut sum = Point::zero();
    let mut i: usize = 0;
    assert(all.take(0) =~= Seq::<Seq<char>>::empty());
    while i < nonce_points.len()
        invariant
            i <= nonce_points.len(),
            all == nonce_texts(nonce_points@),
            bad == (|i: int| nonce_error(nonce_indices(nonce_points@)[i])),
            sum_of_points(all.take(i as int), bad) == Ok::<int, ErrorView>(sum@),
        decreases nonce_points.len() - i,
    {
        proof {
            assert(all.take(i + 1).drop_last() =~= all.take(i as int));
            assert(all.take(i + 1).last() == nonce_points@[i as int].1@);
        }
        let index = number(nonce_points[i].0 as u64);
        let e = SignatifError::Validation(cat3("member ", index.as_str(), ": bad nonce point"));
        assert(e@ == bad(i as int));
        match decode_point(nonce_points[i].1.as_str(), e) {
            Err(e) => {
                proof {
                    lemma_sum_error(all, bad, i + 1);
                }
                return Err(e);
            },
            Ok(p) => {
                sum = sum.plus(&p);
            },
        }
        i += 1;
    }
    assert(all.take(i as int) =~= all);
    Ok(sum)
}

/// The challenge of a signature.
pub open spec fn challenge(r: int, public: Seq<u8>, message: Seq<u8>) -> int {
    digest_scalar(point_bytes(r) + public + message)
}

fn challenge_scalar(r: &Point, public: &[u8; 32], message: &[u8]) -> (c: Scalar)
    ensures
        c@ == challenge(r@, public@, message@),
{
    let b = r.encode();
    Scalar::digest(b.as_slice(), public.as_slice(), message)
}

/// What a member adds to a signature: their nonce, and their share times the
/// challenge and their coefficient.
pub open spec fn partial_scalar(nonce: int, c: int, coefficient: int, secret: int) -> int {
    (nonce + (((c * coefficient) % order()) * secret) % order()) % order()
}

/// What a member contributes.
pub open spec fn partial_of(
    group: GroupView,
    share: ShareView,
    message: Seq<u8>,
    indices: Seq<u32>,
    nonces: Seq<Seq<char>>,
) -> Result<PartialView, ErrorView> {
    if indices.len() < group.threshold {
        Err(
            ErrorView::Validation(
                "a qualifying set needs "@ + decimal(group.threshold as nat) + " members, "@
                    + decimal(indices.len()) + " contributed"@,
            ),
        )
    } else if !indices.contains(share.index) {
        Err(
            ErrorView::Validation(
                "member "@ + decimal(share.index as nat)
                    + " is not part of the qualifying set "@ + ("["@ + joined_numbers(indices)
                    + "]"@),
            ),
        )
    } else {
        match share_scalar(share) {
            Err(e) => Err(e),
            Ok(secret) => match sum_of_points(nonces, |i: int| nonce_error(indices[i])) {
                Err(e) => Err(e),
                Ok(r) => match unhex32_of(group.group_public) {
                    None => Err(encoding_error(group.group_public)),
                    Some(public) => Ok(
                        PartialView {
                            index: share.index,
                            nonce: hex_text(point_bytes(8 * nonce_of(secret, message))),
                            partial: hex_text(
                                scalar_bytes(
                                    partial_scalar(
                                        nonce_of(secret, message),
                                        challenge(r, public, message),
                                        lagrange(share.index as int, as_points(indices)),
                                        secret,
                                    ),
                                ),
                            ),
                        },
                    ),
                },
            },
        }
    }
}

/// Second round: the member's contribution over the sum of the nonce points.
/// It depends on the member's own share alone.
pub fn sign_partial(
    group: &GroupKey,
    share: &MemberShare,
    message: &[u8],
    nonce_points: &[(u32, String)],
) -> (r: Result<PartialSignature, SignatifError>)
    ensures
        viewed(r) == partial_of(
            group@,
            share@,
            message@,
            nonce_indices(nonce_points@),
            nonce_texts(nonce_points@),
        ),
        r is Ok ==> stands_apart(share.index, nonce_indices(nonce_points@)) && reads_back(
            share_scalar(share@)->Ok_0,
            message@,
        ),
{
    let ghost indices = nonce_indices(nonce_points@);
    let mut signers: Vec<u32> = Vec::new();
    let mut found = false;
    let mut i: usize = 0;
    while i < nonce_points.len()
        invariant
            i <= nonce_points.len(),
            indices == nonce_indices(nonce_points@),
            signers@ =~= indices.take(i as int),
            found == indices.take(i as int).contains(share.index),
        decreases nonce_points.len() - i,
    {
        let ghost before = indices.take(i as int);
        signers.push(nonce_points[i].0);
        proof {
            let after = indices.take(i + 1);
            assert(after =~= before.push(indices[i as int]));
            if before.contains(share.index) {
                assert(after[before.index_of(share.index)] == share.index);
            }
            if indices[i as int] == share.index {
                assert(after[i as int] == share.index);
            }
            if after.contains(share.index) && indices[i as int] != share.index {
                let k = after.index_of(share.index);
                assert(before[k] == share.index);
            }
        }
        if nonce_points[i].0 == share.index {
            found = true;
        }
        i += 1;
    }
    assert(indices.take(i as int) =~= indices);
    if signers.len() < group.threshold {
        let want = count(group.threshold);
        let have = count(signers.len());
        return Err(
            SignatifError::Validation(
                cat5(
                    "a qualifying set needs ",
                    want.as_str(),
                    " members, ",
                    have.as_str(),
                    " contributed",
                ),
            ),
        );
    }
    if !found {
        let me = number(share.index as u64);
        let set = number_list(signers.as_slice());
        return Err(
            SignatifError::Validation(
                cat4(
                    "member ",
                    me.as_str(),
                    " is not part of the qualifying set ",
                    set.as_str(),
                ),
            ),
        );
    }
    let secret = match scalar_of(share) {
        Err(e) => {
            return Err(e);
        },
        Ok(s) => s,
    };
    let nonce = nonce_scalar(&secret, message);
    let nonce_at = Point::base(&nonce);
    let r_point = match group_nonce(nonce_points) {
        Err(e) => {
            return Err(e);
        },
        Ok(p) => p,
    };
    let group_public = match compressed(group.group_public.as_str()) {
        Err(e) => {
            return Err(e);
        },
        Ok(b) => b,
    };
    let c = challenge_scalar(&r_point, &group_public, message);
    let coefficient = lagrange_zero(share.index, signers.as_slice());
    let partial = nonce.plus(&c.times(&coefficient).times(&secret));
    let nonce_bytes = nonce_at.encode();
    let partial_bytes = partial.encode();
    Ok(
        PartialSignature {
            index: share.index,
            nonce: hex32(&nonce_bytes),
            partial: hex32(&partial_bytes),
        },
    )
}

/// Where a number goes in an ascending list: behind the last one that is not
/// above it.
pub open spec fn place_of(t: Seq<u32>, x: u32) -> int
    decreases t.len(),
{
    if t.len() > 0 && t.last() > x {
        place_of(t.drop_last(), x)
    } else {
        t.len() as int
    }
}

/// Numbers in ascending order.
pub open spec fn sorted(s: Seq<u32>) -> Seq<u32>
    decreases s.len(),
{
    if s.len() == 0 {
        s
    } else {
        let t = sorted(s.drop_last());
        t.insert(place_of(t, s.last()), s.last())
    }
}

pub(crate) proof fn lemma_place_of(t: Seq<u32>, x: u32)
    ensures
        0 <= place_of(t, x) <= t.len(),
        forall|i: int| place_of(t, x) <= i < t.len() ==> #[trigger] t[i] > x,
        place_of(t, x) > 0 ==> t[place_of(t, x) - 1] <= x,
    decreases t.len(),
{
    if t.len() > 0 && t.last() > x {
        lemma_place_of(t.drop_last(), x);
        assert forall|i: int| place_of(t, x) <= i < t.len() implies #[trigger] t[i] > x by {
            if i < t.len() - 1 {
                assert(t.drop_last()[i] == t[i]);
            }
        }
    }
}

/// Sorting puts numbers in ascending order and keeps them.
pub proof fn sorting_keeps_the_numbers(s: Seq<u32>)
    ensures
        forall|i: int, j: int| 0 <= i <= j < sorted(s).len() ==> sorted(s)[i] <= sorted(s)[j],
        sorted(s).len() == s.len(),
        sorted(s).to_set() == s.to_set(),
    decreases s.len(),
{
    if s.len() > 0 {
        let t = sorted(s.drop_last());
        let x = s.last();
        let p = place_of(t, x);
        sorting_keeps_the_numbers(s.drop_last());
        lemma_place_of(t, x);
        let r = t.insert(p, x);
        assert forall|i: int, j: int| 0 <= i <= j < r.len() implies r[i] <= r[j] by {
            if j == p && i < p {
                assert(t[i] <= t[p - 1]);
            }
        }
        crate::maps::lemma_insert_set(t, p, x);
        assert(s =~= s.drop_last().push(x));
        assert(s.to_set() =~= s.drop_last().to_set().insert(x)) by {
            assert forall|y: u32| s.to_set().contains(y) == s.drop_last().to_set().insert(
                x,
            ).contains(y) by {
                if s.drop_last().contains(y) {
                    assert(s[s.drop_last().index_of(y)] == y);
                }
                if y == x {
                    assert(s[s.len() - 1] == y);
                }
                if s.contains(y) && y != x {
                    assert(s.drop_last()[s.index_of(y)] == y);
                }
            }
        }
    }
}

fn insert_number(t: &mut Vec<u32>, x: u32)
    ensures
        final(t)@ == old(t)@.insert(place_of(old(t)@, x), x),
{
    let ghost all = t@;
    let mut i: usize = t.len();
    assert(all.take(i as int) =~= all);
    while i > 0 && t[i - 1] > x
        invariant
            i <= t.len(),
            t@ == all,
            place_of(all.take(i as int), x) == place_of(all, x),
        decreases i,
    {
        assert(all.take(i as int).drop_last() =~= all.take(i - 1));
        assert(all.take(i as int).last() == all[i - 1]);
        i -= 1;
    }
    assert(place_of(all.take(i as int), x) == i) by {
        if i > 0 {
            assert(all.take(i as int).last() == all[i - 1]);
        }
    }
    t.insert(i, x);
}

/// The partial signatures of a list as mathematical values.
pub open spec fn partial_views(s: Seq<PartialSignature>) -> Seq<PartialView> {
    s.map_values(|p: PartialSignature| p@)
}

/// The indices of partial signatures.
pub open spec fn partial_indices(s: Seq<PartialView>) -> Seq<u32> {
    s.map_values(|p: PartialView| p.index)
}

/// The nonce points of partial signatures.
pub open spec fn partial_nonces(s: Seq<PartialView>) -> Seq<Seq<char>> {
    s.map_values(|p: PartialView| p.nonce)
}

fn sort_indices(partials: &[PartialSignature]) -> (r: Vec<u32>)
    ensures
        r@ == sorted(partial_indices(partial_views(partials@))),
{
    let ghost all = partial_indices(partial_views(partials@));
    let mut out: Vec<u32> = Vec::new();
    let mut i: usize = 0;
    assert(all.take(0) =~= Seq::<u32>::empty());
    assert(out@ =~= Seq::<u32>::empty());
    while i < partials.len()
        invariant
            i <= partials.len(),
            all == partial_indices(partial_views(partials@)),
            out@ == sorted(all.take(i as int)),
        decreases partials.len() - i,
    {
        assert(all.take(i + 1).drop_last() =~= all.take(i as int));
        assert(all.take(i + 1).last() == partials@[i as int].index);
        insert_number(&mut out, partials[i].index);
        i += 1;
    }
    assert(all.take(i as int) =~= all);
    out
}

fn distinct_indices(partials: &[PartialSignature]) -> (r: bool)
    ensures
        r == partial_indices(partial_views(partials@)).no_duplicates(),
{
    let ghost all = partial_indices(partial_views(partials@));
    let mut i: usize = 0;
    while i < partials.len()
        invariant
            i <= partials.len(),
            all == partial_indices(partial_views(partials@)),
            forall|a: int, b: int| 0 <= a < b < all.len() && a < i ==> all[a] != all[b],
        decreases partials.len() - i,
    {
        let mut j: usize = i + 1;
        while j < partials.len()
            invariant
                i < j <= partials.len(),
                all == partial_indices(partial_views(partials@)),
                forall|b: int| i < b < j ==> all[i as int] != #[trigger] all[b],
            decreases partials.len() - j,
        {
            assert(all[i as int] == partials@[i as int].index);
            assert(all[j as int] == partials@[j as int].index);
            if partials[i].index == partials[j].index {
                return false;
            }
            j += 1;
        }
        i += 1;
    }
    assert forall|a: int, b: int|
        0 <= a < all.len() && 0 <= b < all.len() && a != b implies all[a] != all[b] by {
        if a > b {
            assert(all[b] != all[a]);
        }
    }
    true
}

/// The error of a nonce point that is no point, when combining.
pub open spec fn off_curve_error() -> ErrorView {
    ErrorView::Validation("a nonce point is not on the curve"@)
}

/// The scalar of a partial signature.
pub open spec fn partial_value(p: PartialView) -> Result<int, ErrorView> {
    match unhex32_of(p.partial) {
        None => Err(ErrorView::Validation("a partial is not 32-byte hex"@)),
        Some(b) => if le_value(b) < order() {
            Ok(le_value(b))
        } else {
            Err(ErrorView::Validation("a partial is not a canonical scalar"@))
        },
    }
}

/// The error that names a member who contributed a wrong partial.
pub open spec fn culprit_error(index: u32) -> ErrorView {
    ErrorView::Crypto(
        "member "@ + decimal(index as nat)
            + " contributed an invalid partial — ceremony aborted, culprit identified"@,
    )
}

/// What checking one partial signature gives: its scalar, when the base point
/// times it is the nonce point and the member's point times the challenge and
/// the coefficient.
pub open spec fn checked_partial(
    c: int,
    commitments: Seq<int>,
    signers: Seq<u32>,
    p: PartialView,
) -> Result<int, ErrorView> {
    match partial_value(p) {
        Err(e) => Err(e),
        Ok(s) => match point_of(p.nonce, off_curve_error()) {
            Err(e) => Err(e),
            Ok(r) => if 8 * s == (r + (((c * lagrange(p.index as int, as_points(signers)))
                % order()) * member_number(commitments, p.index as int)) % points()) % points() {
                Ok(s)
            } else {
                Err(culprit_error(p.index))
            },
        },
    }
}

/// The sum of partial signatures, or the first error.
pub open spec fn partial_sum(
    c: int,
    commitments: Seq<int>,
    signers: Seq<u32>,
    partials: Seq<PartialView>,
) -> Result<int, ErrorView>
    decreases partials.len(),
{
    if partials.len() == 0 {
        Ok(0)
    } else {
        match partial_sum(c, commitments, signers, partials.drop_last()) {
            Err(e) => Err(e),
            Ok(before) => match checked_partial(c, commitments, signers, partials.last()) {
                Err(e) => Err(e),
                Ok(s) => Ok((before + s) % order()),
            },
        }
    }
}

proof fn lemma_partial_sum_error(
    c: int,
    commitments: Seq<int>,
    signers: Seq<u32>,
    partials: Seq<PartialView>,
    k: int,
)
    requires
        0 <= k <= partials.len(),
        partial_sum(c, commitments, signers, partials.take(k)) is Err,
    ensures
        partial_sum(c, commitments, signers, partials) == partial_sum(
            c,
            commitments,
            signers,
            partials.take(k),
        ),
    decreases partials.len() - k,
{
    if k < partials.len() {
        assert(partials.take(k + 1).drop_last() =~= partials.take(k));
        lemma_partial_sum_error(c, commitments, signers, partials, k + 1);
    } else {
        assert(partials.take(k) =~= partials);
    }
}

/// The sum of the nonce points of partial signatures.
pub open spec fn combined_nonce(partials: Seq<PartialView>) -> Result<int, ErrorView> {
    sum_of_points(partial_nonces(partials), |i: int| off_curve_error())
}

/// What combining partial signatures gives.
pub open spec fn combined(
    group: GroupView,
    message: Seq<u8>,
    partials: Seq<PartialView>,
) -> Result<GroupSignatureView, ErrorView> {
    if partials.len() != group.threshold {
        Err(
            ErrorView::Validation(
                "combination takes exactly "@ + decimal(group.threshold as nat)
                    + " partials, got "@ + decimal(partials.len()),
            ),
        )
    } else if !partial_indices(partials).no_duplicates() {
        Err(ErrorView::Validation("a member contributed twice — one member, one partial"@))
    } else {
        match combined_nonce(partials) {
            Err(e) => Err(e),
            Ok(r) => match unhex32_of(group.group_public) {
                None => Err(encoding_error(group.group_public)),
                Some(public) => match commitment_points(group.commitments) {
                    Err(e) => Err(e),
                    Ok(commitments) => match partial_sum(
                        challenge(r, public, message),
                        commitments,
                        sorted(partial_indices(partials)),
                        partials,
                    ) {
                        Err(e) => Err(e),
                        Ok(total) => Ok(
                            GroupSignatureView {
                                r: hex_text(point_bytes(r)),
                                s: hex_text(scalar_bytes(total)),
                                signers: sorted(partial_indices(partials)),
                                algorithm: ALGORITHM@,
                            },
                        ),
                    },
                },
            },
        }
    }
}

fn combine_nonces(partials: &[PartialSignature]) -> (r: Result<Point, SignatifError>)
    ensures
        viewed(r) == combined_nonce(partial_views(partials@)),
{
    let ghost all = partial_nonces(partial_views(partials@));
    let ghost bad = |i: int| off_curve_error();
    let mut sum = Point::zero();
    let mut i: usize = 0;
    assert(all.take(0) =~= Seq::<Seq<char>>::empty());
    while i < partials.len()
        invariant
            i <= partials.len(),
            all == partial_nonces(partial_views(partials@)),
            bad == (|i: int| off_curve_error()),
            sum_of_points(all.take(i as int), bad) == Ok::<int, ErrorView>(sum@),
        decreases partials.len() - i,
    {
        proof {
            assert(all.take(i + 1).drop_last() =~= all.take(i as int));
            assert(all.take(i + 1).last() == partials@[i as int].nonce@);
        }
        let e = SignatifError::invalid("a nonce point is not on the curve");
        match decode_point(partials[i].nonce.as_str(), e) {
            Err(e) => {
                proof {
                    lemma_sum_error(all, bad, i + 1);
                }
                return Err(e);
            },
            Ok(p) => {
                sum = sum.plus(&p);
            },
        }
        i += 1;
    }
    assert(all.take(i as int) =~= all);
    Ok(sum)
}

fn check_partial(c: &Scalar, commitments: &Vec<Point>, signers: &Vec<u32>, p: &PartialSignature) -> (r:
    Result<Scalar, SignatifError>)
    ensures
        viewed(r) == checked_partial(c@, point_numbers(commitments@), signers@, p@),
        r is Ok ==> stands_apart(p.index, signers@),
{
    let s = match unhex32(p.partial.as_str()) {
        None => {
            return Err(SignatifError::invalid("a partial is not 32-byte hex"));
        },
        Some(b) => match Scalar::decode(&b) {
            None => {
                return Err(SignatifError::invalid("a partial is not a canonical scalar"));
            },
            Some(s) => s,
        },
    };
    let bad = SignatifError::invalid("a nonce point is not on the curve");
    let nonce = match decode_point(p.nonce.as_str(), bad) {
        Err(e) => {
            return Err(e);
        },
        Ok(q) => q,
    };
    let member = member_point(commitments, p.index);
    let coefficient = lagrange_zero(p.index, signers.as_slice());
    let left = Point::base(&s);
    let right = nonce.plus(&member.times(&c.times(&coefficient)));
    if left.same(&right) {
        Ok(s)
    } else {
        let index = number(p.index as u64);
        Err(
            SignatifError::Crypto(
                cat3(
                    "member ",
                    index.as_str(),
                    " contributed an invalid partial — ceremony aborted, culprit identified",
                ),
            ),
        )
    }
}

fn sum_partials(
    c: &Scalar,
    commitments: &Vec<Point>,
    signers: &Vec<u32>,
    partials: &[PartialSignature],
) -> (r: Result<Scalar, SignatifError>)
    ensures
        viewed(r) == partial_sum(
            c@,
            point_numbers(commitments@),
            signers@,
            partial_views(partials@),
        ),
        r is Ok ==> forall|i: int|
            0 <= i < partials@.len() ==> stands_apart((#[trigger] partials@[i]).index, signers@),
{
    let ghost all = partial_views(partials@);
    let ghost numbers = point_numbers(commitments@);
    let mut total = Scalar::of_number(0);
    let mut i: usize = 0;
    assert(all.take(0) =~= Seq::<PartialView>::empty());
    while i < partials.len()
        invariant
            i <= partials.len(),
            all == partial_views(partials@),
            numbers == point_numbers(commitments@),
            partial_sum(c@, numbers, signers@, all.take(i as int)) == Ok::<int, ErrorView>(total@),
            forall|k: int| 0 <= k < i ==> stands_apart((#[trigger] partials@[k]).index, signers@),
        decreases partials.len() - i,
    {
        let checked = check_partial(c, commitments, signers, &partials[i]);
        proof {
            lemma_partial_sum_step(c@, numbers, signers@, all, i as int);
        }
        match checked {
            Err(e) => {
                proof {
                    lemma_partial_sum_error(c@, numbers, signers@, all, i + 1);
                }
                return Err(e);
            },
            Ok(s) => {
                total = total.plus(&s);
            },
        }
        i += 1;
    }
    assert(all.take(i as int) =~= all);
    Ok(total)
}

proof fn lemma_partial_sum_step(
    c: int,
    commitments: Seq<int>,
    signers: Seq<u32>,
    partials: Seq<PartialView>,
    k: int,
)
    requires
        0 <= k < partials.len(),
    ensures
        partial_sum(c, commitments, signers, partials.take(k + 1)) == (match partial_sum(
            c,
            commitments,
            signers,
            partials.take(k),
        ) {
            Err(e) => Err(e),
            Ok(before) => match checked_partial(c, commitments, signers, partials[k]) {
                Err(e) => Err(e),
                Ok(s) => Ok((before + s) % order()),
            },
        }),
{
    assert(partials.take(k + 1).drop_last() =~= partials.take(k));
    assert(partials.take(k + 1).last() == partials[k]);
}

/// Whether a group belongs to the coefficients of a polynomial, as
/// [`generate`] deals it.
pub open spec fn group_dealt_by(f: Seq<int>, group: GroupView) -> bool {
    &&& 0 < f.len() <= usize::MAX
    &&& committed(f)
    &&& group == dealt_group(f, group.members)
}

/// Combines the partial signatures of a qualifying set into one signature
/// under the group key. A wrong partial stops it and names its member. What it
/// gives for a dealt group verifies, whoever made the partials.
pub fn combine(group: &GroupKey, message: &[u8], partials: &[PartialSignature]) -> (r: Result<
    GroupSignature,
    SignatifError,
>)
    ensures
        viewed(r) == combined(group@, message@, partial_views(partials@)),
        r is Ok ==> readable(combined_nonce(partial_views(partials@))->Ok_0) && point_bytes(
            combined_nonce(partial_views(partials@))->Ok_0,
        ).len() == 32,
        forall|f: Seq<int>| #[trigger]
            group_dealt_by(f, group@) && r is Ok ==> {
                &&& signature_check(group@, message@, r->Ok_0@) is Ok
                &&& ed25519_bytes_of(r->Ok_0@) matches Ok(bytes) && ed25519_accepts(
                    unhex32_of(group@.group_public)->0,
                    message@,
                    bytes,
                )
            },
{
    let ghost all = partial_views(partials@);
    assert(all.len() == partials@.len());
    if partials.len() != group.threshold {
        let want = count(group.threshold);
        let have = count(partials.len());
        return Err(
            SignatifError::Validation(
                cat4(
                    "combination takes exactly ",
                    want.as_str(),
                    " partials, got ",
                    have.as_str(),
                ),
            ),
        );
    }
    if !distinct_indices(partials) {
        return Err(
            SignatifError::invalid("a member contributed twice — one member, one partial"),
        );
    }
    let signers = sort_indices(partials);
    let r_point = match combine_nonces(partials) {
        Err(e) => {
            return Err(e);
        },
        Ok(p) => p,
    };
    let group_public = match compressed(group.group_public.as_str()) {
        Err(e) => {
            return Err(e);
        },
        Ok(b) => b,
    };
    let c = challenge_scalar(&r_point, &group_public, message);
    let commitments = match decode_commitments(&group.commitments) {
        Err(e) => {
            return Err(e);
        },
        Ok(v) => v,
    };
    let total = match sum_partials(&c, &commitments, &signers, partials) {
        Err(e) => {
            return Err(e);
        },
        Ok(t) => t,
    };
    let r_bytes = r_point.encode();
    let s_bytes = total.encode();
    total.reveal_range();
    let ghost indices = sorted(partial_indices(all));
    let r = GroupSignature {
        r: hex32(&r_bytes),
        s: hex32(&s_bytes),
        signers,
        algorithm: ALGORITHM.to_owned(),
    };
    proof {
        assert forall|f: Seq<int>| #[trigger] group_dealt_by(f, group@) implies signature_check(
            group@,
            message@,
            r@,
        ) is Ok && (ed25519_bytes_of(r@) matches Ok(bytes) && ed25519_accepts(
            unhex32_of(group@.group_public)->0,
            message@,
            bytes,
        )) by {
            assert forall|i: int| 0 <= i < all.len() implies stands_apart(
                (#[trigger] all[i]).index,
                indices,
            ) by {
                assert(all[i] == partials@[i]@);
            }
            lemma_accepted(f, group@, message@, all, r@, r_point@, total@);
        }
    }
    Ok(r)
}

/// What checking a group signature gives.
pub open spec fn signature_check(
    group: GroupView,
    message: Seq<u8>,
    signature: GroupSignatureView,
) -> Result<(), ErrorView> {
    if signature.signers.len() != group.threshold {
        Err(
            ErrorView::Crypto(
                "signature names "@ + decimal(signature.signers.len())
                    + " signers but the threshold is "@ + decimal(group.threshold as nat),
            ),
        )
    } else {
        match point_of(
            group.group_public,
            ErrorView::Validation("the group public key is not a valid point"@),
        ) {
            Err(e) => Err(e),
            Ok(a) => match point_of(
                signature.r,
                ErrorView::Validation("signature R is not a valid point"@),
            ) {
                Err(e) => Err(e),
                Ok(r) => match unhex32_of(signature.s) {
                    None => Err(ErrorView::Validation("signature s is not 32-byte hex"@)),
                    Some(b) => if le_value(b) >= order() {
                        Err(ErrorView::Validation("signature s is not a canonical scalar"@))
                    } else if (8 * le_value(b) - (challenge(
                        r,
                        unhex32_of(group.group_public)->0,
                        message,
                    ) * a) % points()) % points() == r {
                        Ok(())
                    } else {
                        Err(ErrorView::Crypto("group signature verification failed"@))
                    },
                },
            },
        }
    }
}

/// Checks a group signature: the Ed25519 equation under the group key, and the
/// number of signers.
pub fn verify(group: &GroupKey, message: &[u8], signature: &GroupSignature) -> (r: Result<
    (),
    SignatifError,
>)
    ensures
        crate::outcome(r) == signature_check(group@, message@, signature@),
{
    if signature.signers.len() != group.threshold {
        let have = count(signature.signers.len());
        let want = count(group.threshold);
        return Err(
            SignatifError::Crypto(
                cat4(
                    "signature names ",
                    have.as_str(),
                    " signers but the threshold is ",
                    want.as_str(),
                ),
            ),
        );
    }
    let bad_key = SignatifError::invalid("the group public key is not a valid point");
    let public = match decode_point(group.group_public.as_str(), bad_key) {
        Err(e) => {
            return Err(e);
        },
        Ok(p) => p,
    };
    let bad_r = SignatifError::invalid("signature R is not a valid point");
    let r_point = match decode_point(signature.r.as_str(), bad_r) {
        Err(e) => {
            return Err(e);
        },
        Ok(p) => p,
    };
    let s = match unhex32(signature.s.as_str()) {
        None => {
            return Err(SignatifError::invalid("signature s is not 32-byte hex"));
        },
        Some(b) => match Scalar::decode(&b) {
            None => {
                return Err(SignatifError::invalid("signature s is not a canonical scalar"));
            },
            Some(s) => s,
        },
    };
    let group_public = match compressed(group.group_public.as_str()) {
        Err(e) => {
            return Err(e);
        },
        Ok(b) => b,
    };
    let c = challenge_scalar(&r_point, &group_public, message);
    let check = Point::base(&s).minus(&public.times(&c));
    if check.same(&r_point) {
        Ok(())
    } else {
        Err(SignatifError::crypto("group signature verification failed"))
    }
}

/// The bytes of a group signature as an Ed25519 signature.
pub open spec fn ed25519_bytes_of(signature: GroupSignatureView) -> Result<Seq<u8>, ErrorView> {
    match unhex32_of(signature.r) {
        None => Err(ErrorView::Validation("signature R is not 32-byte hex"@)),
        Some(r) => match unhex32_of(signature.s) {
            None => Err(ErrorView::Validation("signature s is not 32-byte hex"@)),
            Some(s) => Ok(r + s),
        },
    }
}

impl GroupSignature {
    /// The bytes of the signature, for any Ed25519 verifier.
    pub fn to_ed25519_bytes(&self) -> (r: Result<[u8; 64], SignatifError>)
        ensures
            viewed(r) == ed25519_bytes_of(self@),
    {
        let r_bytes = match unhex32(self.r.as_str()) {
            None => {
                return Err(SignatifError::invalid("signature R is not 32-byte hex"));
            },
            Some(b) => b,
        };
        let s_bytes = match unhex32(self.s.as_str()) {
            None => {
                return Err(SignatifError::invalid("signature s is not 32-byte hex"));
            },
            Some(b) => b,
        };
        let mut out: [u8; 64] = [0u8; 64];
        let mut i: usize = 0;
        while i < 32
            invariant
                i <= 32,
                forall|k: int| 0 <= k < i ==> out@[k] == r_bytes@[k],
                forall|k: int| 0 <= k < i ==> out@[32 + k] == s_bytes@[k],
            decreases 32 - i,
        {
            out[i] = r_bytes[i];
            out[32 + i] = s_bytes[i];
            i += 1;
        }
        proof {
            assert forall|k: int| 0 <= k < 64 implies out@[k] == (r_bytes@ + s_bytes@)[k] by {
                if k >= 32 {
                    assert(out@[32 + (k - 32)] == s_bytes@[k - 32]);
                }
            }
        }
        assert(out@ =~= r_bytes@ + s_bytes@);
        Ok(out)
    }
}

/// The indices of shares.
pub open spec fn share_indices(s: Seq<ShareView>) -> Seq<u32> {
    s.map_values(|m: ShareView| m.index)
}

/// The nonce points of shares, or the first error.
pub open spec fn all_nonces(shares: Seq<ShareView>, message: Seq<u8>) -> Result<
    Seq<Seq<char>>,
    ErrorView,
>
    decreases shares.len(),
{
    if shares.len() == 0 {
        Ok(Seq::empty())
    } else {
        match all_nonces(shares.drop_last(), message) {
            Err(e) => Err(e),
            Ok(before) => match nonce_point_of(shares.last(), message) {
                Err(e) => Err(e),
                Ok(n) => Ok(before.push(n)),
            },
        }
    }
}

/// The contributions of shares, or the first error.
pub open spec fn all_partials(
    group: GroupView,
    shares: Seq<ShareView>,
    message: Seq<u8>,
    indices: Seq<u32>,
    nonces: Seq<Seq<char>>,
) -> Result<Seq<PartialView>, ErrorView>
    decreases shares.len(),
{
    if shares.len() == 0 {
        Ok(Seq::empty())
    } else {
        match all_partials(group, shares.drop_last(), message, indices, nonces) {
            Err(e) => Err(e),
            Ok(before) => match partial_of(group, shares.last(), message, indices, nonces) {
                Err(e) => Err(e),
                Ok(p) => Ok(before.push(p)),
            },
        }
    }
}

/// What signing with the shares of a qualifying set gives.
pub open spec fn ceremony(group: GroupView, shares: Seq<ShareView>, message: Seq<u8>) -> Result<
    GroupSignatureView,
    ErrorView,
> {
    if shares.len() != group.threshold {
        Err(
            ErrorView::Validation(
                "a qualifying set is exactly "@ + decimal(group.threshold as nat) + " shares ("@
                    + decimal(shares.len())
                    + " given): fewer cannot sign, more are redundant"@,
            ),
        )
    } else {
        match all_nonces(shares, message) {
            Err(e) => Err(e),
            Ok(nonces) => match all_partials(
                group,
                shares,
                message,
                share_indices(shares),
                nonces,
            ) {
                Err(e) => Err(e),
                Ok(partials) => combined(group, message, partials),
            },
        }
    }
}

proof fn lemma_nonces_error(shares: Seq<ShareView>, message: Seq<u8>, k: int)
    requires
        0 <= k <= shares.len(),
        all_nonces(shares.take(k), message) is Err,
    ensures
        all_nonces(shares, message) == all_nonces(shares.take(k), message),
    decreases shares.len() - k,
{
    if k < shares.len() {
        assert(shares.take(k + 1).drop_last() =~= shares.take(k));
        lemma_nonces_error(shares, message, k + 1);
    } else {
        assert(shares.take(k) =~= shares);
    }
}

proof fn lemma_partials_error(
    group: GroupView,
    shares: Seq<ShareView>,
    message: Seq<u8>,
    indices: Seq<u32>,
    nonces: Seq<Seq<char>>,
    k: int,
)
    requires
        0 <= k <= shares.len(),
        all_partials(group, shares.take(k), message, indices, nonces) is Err,
    ensures
        all_partials(group, shares, message, indices, nonces) == all_partials(
            group,
            shares.take(k),
            message,
            indices,
            nonces,
        ),
    decreases shares.len() - k,
{
    if k < shares.len() {
        assert(shares.take(k + 1).drop_last() =~= shares.take(k));
        lemma_partials_error(group, shares, message, indices, nonces, k + 1);
    } else {
        assert(shares.take(k) =~= shares);
    }
}

/// Whether a group and as many distinct shares as its threshold belong to the
/// coefficients of one polynomial, as [`generate`] deals them.
pub open spec fn dealt_by(f: Seq<int>, group: GroupView, shares: Seq<ShareView>) -> bool {
    &&& 0 < f.len() <= usize::MAX
    &&& committed(f)
    &&& group == dealt_group(f, group.members)
    &&& shares.len() == f.len()
    &&& forall|i: int|
        0 <= i < shares.len() ==> #[trigger] shares[i] == dealt_share(f, shares[i].index)
    &&& share_indices(shares).no_duplicates()
}

fn first_round(shares: &[MemberShare], message: &[u8]) -> (r: Result<
    Vec<(u32, String)>,
    SignatifError,
>)
    ensures
        match all_nonces(share_views(shares@), message@) {
            Ok(nonces) => r matches Ok(v) && nonce_texts(v@) == nonces && nonce_indices(v@)
                == share_indices(share_views(shares@)),
            Err(f) => r matches Err(e) && e@ == f,
        },
        r is Ok ==> forall|i: int|
            0 <= i < shares@.len() ==> reads_back(
                share_scalar((#[trigger] shares@[i])@)->Ok_0,
                message@,
            ),
{
    let ghost all = share_views(shares@);
    let mut out: Vec<(u32, String)> = Vec::new();
    let mut i: usize = 0;
    assert(all.take(0) =~= Seq::<ShareView>::empty());
    assert(nonce_texts(out@) =~= Seq::<Seq<char>>::empty());
    assert(nonce_indices(out@) =~= share_indices(all).take(0));
    while i < shares.len()
        invariant
            i <= shares.len(),
            all == share_views(shares@),
            all_nonces(all.take(i as int), message@) == Ok::<Seq<Seq<char>>, ErrorView>(
                nonce_texts(out@),
            ),
            nonce_indices(out@) == share_indices(all).take(i as int),
            forall|k: int|
                0 <= k < i ==> reads_back(
                    share_scalar((#[trigger] shares@[k])@)->Ok_0,
                    message@,
                ),
        decreases shares.len() - i,
    {
        proof {
            assert(all.take(i + 1).drop_last() =~= all.take(i as int));
            assert(all.take(i + 1).last() == shares@[i as int]@);
        }
        match nonce_point(&shares[i], message) {
            Err(e) => {
                proof {
                    lemma_nonces_error(all, message@, i + 1);
                }
                return Err(e);
            },
            Ok(n) => {
                let ghost texts_before = nonce_texts(out@);
                let ghost indices_before = nonce_indices(out@);
                out.push((shares[i].index, n));
                assert(nonce_texts(out@) =~= texts_before.push(n@));
                assert(nonce_indices(out@) =~= indices_before.push(all[i as int].index));
                assert(nonce_indices(out@) =~= share_indices(all).take(i + 1));
            },
        }
        i += 1;
    }
    assert(all.take(i as int) =~= all);
    assert(share_indices(all).take(i as int) =~= share_indices(all));
    Ok(out)
}

fn second_round(
    group: &GroupKey,
    shares: &[MemberShare],
    message: &[u8],
    nonces: &Vec<(u32, String)>,
) -> (r: Result<Vec<PartialSignature>, SignatifError>)
    ensures
        match all_partials(
            group@,
            share_views(shares@),
            message@,
            nonce_indices(nonces@),
            nonce_texts(nonces@),
        ) {
            Ok(partials) => r matches Ok(v) && partial_views(v@) == partials,
            Err(f) => r matches Err(e) && e@ == f,
        },
        r is Ok ==> forall|i: int|
            0 <= i < shares@.len() ==> stands_apart(
                (#[trigger] shares@[i]).index,
                nonce_indices(nonces@),
            ),
{
    let ghost all = share_views(shares@);
    let ghost indices = nonce_indices(nonces@);
    let ghost points_of = nonce_texts(nonces@);
    let mut out: Vec<PartialSignature> = Vec::new();
    let mut i: usize = 0;
    assert(all.take(0) =~= Seq::<ShareView>::empty());
    assert(partial_views(out@) =~= Seq::<PartialView>::empty());
    while i < shares.len()
        invariant
            i <= shares.len(),
            all == share_views(shares@),
            indices == nonce_indices(nonces@),
            points_of == nonce_texts(nonces@),
            all_partials(group@, all.take(i as int), message@, indices, points_of) == Ok::<
                Seq<PartialView>,
                ErrorView,
            >(partial_views(out@)),
            forall|k: int|
                0 <= k < i ==> stands_apart((#[trigger] shares@[k]).index, indices),
        decreases shares.len() - i,
    {
        proof {
            assert(all.take(i + 1).drop_last() =~= all.take(i as int));
            assert(all.take(i + 1).last() == shares@[i as int]@);
        }
        match sign_partial(group, &shares[i], message, nonces.as_slice()) {
            Err(e) => {
                proof {
                    lemma_partials_error(group@, all, message@, indices, points_of, i + 1);
                }
                return Err(e);
            },
            Ok(p) => {
                let ghost before = partial_views(out@);
                out.push(p);
                assert(partial_views(out@) =~= before.push(p@));
            },
        }
        i += 1;
    }
    assert(all.take(i as int) =~= all);
    Ok(out)
}

/// Sorting the signers changes no coefficient.
pub(crate) proof fn lemma_lagrange_sorted(x: int, s: Seq<u32>)
    ensures
        lagrange(x, as_points(sorted(s))) == lagrange(x, as_points(s)),
    decreases s.len(),
{
    if s.len() > 0 {
        let before = s.drop_last();
        let t = sorted(before);
        let y = s.last();
        let p = place_of(t, y);
        lemma_place_of(t, y);
        lemma_lagrange_sorted(x, before);
        assert(as_points(t.insert(p, y)) =~= as_points(t).insert(p, y as int));
        crate::lagrange::lemma_lagrange_insert(x, as_points(t), p, y as int);
        assert(as_points(s).drop_last() =~= as_points(before));
        assert(as_points(t).push(y as int).drop_last() =~= as_points(t));
    }
}

/// The nonce of the share of an index.
spec fn honest_nonce(f: Seq<int>, index: u32, message: Seq<u8>) -> int {
    nonce_of(poly(f, index as int), message)
}

/// The nonce points of shares of indices.
spec fn honest_nonces(f: Seq<int>, indices: Seq<u32>, message: Seq<u8>) -> Seq<Seq<char>> {
    indices.map_values(|i: u32| hex_text(point_bytes(8 * honest_nonce(f, i, message))))
}

/// The sum of the nonces.
spec fn nonce_total(f: Seq<int>, indices: Seq<u32>, message: Seq<u8>) -> int
    decreases indices.len(),
{
    if indices.len() == 0 {
        0
    } else {
        (nonce_total(f, indices.drop_last(), message) + honest_nonce(
            f,
            indices.last(),
            message,
        )) % order()
    }
}

/// The scalar that the share of an index adds to a signature.
spec fn honest_scalar(f: Seq<int>, all: Seq<u32>, index: u32, message: Seq<u8>, c: int) -> int {
    partial_scalar(
        honest_nonce(f, index, message),
        c,
        lagrange(index as int, as_points(all)),
        poly(f, index as int),
    )
}

/// The contributions of shares of indices.
spec fn honest_partials(
    f: Seq<int>,
    all: Seq<u32>,
    indices: Seq<u32>,
    message: Seq<u8>,
    c: int,
) -> Seq<PartialView> {
    indices.map_values(
        |i: u32|
            PartialView {
                index: i,
                nonce: hex_text(point_bytes(8 * honest_nonce(f, i, message))),
                partial: hex_text(scalar_bytes(honest_scalar(f, all, i, message, c))),
            },
    )
}

/// The sum of the contributions.
spec fn scalar_total(
    f: Seq<int>,
    all: Seq<u32>,
    indices: Seq<u32>,
    message: Seq<u8>,
    c: int,
) -> int
    decreases indices.len(),
{
    if indices.len() == 0 {
        0
    } else {
        (scalar_total(f, all, indices.drop_last(), message, c) + honest_scalar(
            f,
            all,
            indices.last(),
            message,
            c,
        )) % order()
    }
}

/// Whether the nonce points of indices can be read from their encodings.
spec fn all_read_back(f: Seq<int>, indices: Seq<u32>, message: Seq<u8>) -> bool {
    forall|i: int|
        0 <= i < indices.len() ==> reads_back(poly(f, #[trigger] indices[i] as int), message)
}

proof fn lemma_nonces(f: Seq<int>, shares: Seq<ShareView>, message: Seq<u8>)
    requires
        forall|i: int|
            0 <= i < shares.len() ==> #[trigger] shares[i] == dealt_share(f, shares[i].index),
    ensures
        all_nonces(shares, message) == Ok::<Seq<Seq<char>>, ErrorView>(
            honest_nonces(f, share_indices(shares), message),
        ),
    decreases shares.len(),
{
    let want = honest_nonces(f, share_indices(shares), message);
    if shares.len() == 0 {
        assert(want =~= Seq::<Seq<char>>::empty());
    } else {
        let short = shares.drop_last();
        assert forall|i: int| 0 <= i < short.len() implies #[trigger] short[i] == dealt_share(
            f,
            short[i].index,
        ) by {
            assert(short[i] == shares[i]);
        }
        lemma_nonces(f, short, message);
        let m = shares[shares.len() - 1];
        lemma_dealt_share_scalar(f, m.index);
        assert(want =~= honest_nonces(f, share_indices(short), message).push(
            hex_text(point_bytes(8 * honest_nonce(f, m.index, message))),
        ));
    }
}

proof fn lemma_nonce_total(
    f: Seq<int>,
    indices: Seq<u32>,
    message: Seq<u8>,
    bad: spec_fn(int) -> ErrorView,
)
    requires
        all_read_back(f, indices, message),
    ensures
        sum_of_points(honest_nonces(f, indices, message), bad) == Ok::<int, ErrorView>(
            8 * nonce_total(f, indices, message),
        ),
    decreases indices.len(),
{
    let items = honest_nonces(f, indices, message);
    if indices.len() > 0 {
        let short = indices.drop_last();
        assert forall|i: int| 0 <= i < short.len() implies reads_back(
            poly(f, #[trigger] short[i] as int),
            message,
        ) by {
            assert(short[i] == indices[i]);
        }
        lemma_nonce_total(f, short, message, bad);
        assert(items.drop_last() =~= honest_nonces(f, short, message));
        let x = indices[indices.len() - 1];
        let k = honest_nonce(f, x, message);
        assert(reads_back(poly(f, x as int), message));
        lemma_hex32(point_bytes(8 * k));
        assert(items.last() == hex_text(point_bytes(8 * k)));
        let before = nonce_total(f, short, message);
        lemma_eightfold(before + k);
        assert(8 * before + 8 * k == 8 * (before + k));
    }
}

proof fn lemma_honest_partials(
    f: Seq<int>,
    group: GroupView,
    shares: Seq<ShareView>,
    all: Seq<ShareView>,
    message: Seq<u8>,
    r: int,
)
    requires
        dealt_by(f, group, all),
        forall|i: int| 0 <= i < shares.len() ==> all.contains(#[trigger] shares[i]),
        all_read_back(f, share_indices(all), message),
        r == 8 * nonce_total(f, share_indices(all), message),
    ensures
        all_partials(
            group,
            shares,
            message,
            share_indices(all),
            honest_nonces(f, share_indices(all), message),
        ) == Ok::<Seq<PartialView>, ErrorView>(
            honest_partials(
                f,
                share_indices(all),
                share_indices(shares),
                message,
                challenge(r, point_bytes(8 * f[0]), message),
            ),
        ),
    decreases shares.len(),
{
    let indices = share_indices(all);
    let nonces = honest_nonces(f, indices, message);
    let c = challenge(r, point_bytes(8 * f[0]), message);
    let want = honest_partials(f, indices, share_indices(shares), message, c);
    if shares.len() == 0 {
        assert(want =~= Seq::<PartialView>::empty());
    } else {
        let short = shares.drop_last();
        assert forall|i: int| 0 <= i < short.len() implies all.contains(#[trigger] short[i]) by {
            assert(short[i] == shares[i]);
        }
        lemma_honest_partials(f, group, short, all, message, r);
        let m = shares[shares.len() - 1];
        assert(all.contains(m));
        let at = all.index_of(m);
        assert(all[at] == m);
        assert(indices[at] == m.index);
        assert(indices.contains(m.index));
        lemma_dealt_share_scalar(f, m.index);
        assert(m == dealt_share(f, m.index));
        lemma_nonce_total(f, indices, message, |i: int| nonce_error(indices[i]));
        assert(0 <= f[0] < order());
        lemma_hex32(point_bytes(8 * f[0]));
        assert(group.group_public == hex_text(point_bytes(8 * f[0])));
        let p = PartialView {
            index: m.index,
            nonce: hex_text(point_bytes(8 * honest_nonce(f, m.index, message))),
            partial: hex_text(scalar_bytes(honest_scalar(f, indices, m.index, message, c))),
        };
        assert(partial_of(group, m, message, indices, nonces) == Ok::<PartialView, ErrorView>(p));
        assert(want =~= honest_partials(
            f,
            indices,
            share_indices(short),
            message,
            c,
        ).push(p));
    }
}

/// A contribution made from a dealt share passes its check.
proof fn lemma_honest_check(
    f: Seq<int>,
    all: Seq<u32>,
    index: u32,
    message: Seq<u8>,
    c: int,
)
    requires
        reads_back(poly(f, index as int), message),
    ensures
        ({
            let k = honest_nonce(f, index, message);
            let s = honest_scalar(f, all, index, message, c);
            checked_partial(
                c,
                f.map_values(|x: int| 8 * x),
                sorted(all),
                (PartialView {
                    index,
                    nonce: hex_text(point_bytes(8 * k)),
                    partial: hex_text(scalar_bytes(s)),
                }),
            ) == Ok::<int, ErrorView>(s)
        }),
{
    let k = honest_nonce(f, index, message);
    let s = honest_scalar(f, all, index, message, c);
    let a = poly(f, index as int);
    let coefficient = lagrange(index as int, as_points(all));
    lemma_lagrange_sorted(index as int, all);
    lemma_poly_up(f, index as int);
    lemma_member_number(f, f.map_values(|x: int| 8 * x), index as int);
    lemma_hex32(point_bytes(8 * k));
    assert(0 <= s < order());
    crate::curve::lemma_scalar_bytes(s);
    lemma_hex32(scalar_bytes(s));
    let w = (c * coefficient) % order();
    assert(w * (8 * a) == 8 * (w * a)) by (nonlinear_arith);
    lemma_eightfold(w * a);
    let m = (w * a) % order();
    lemma_eightfold(k + m);
    assert(8 * k + 8 * m == 8 * (k + m));
}

proof fn lemma_scalar_total(
    f: Seq<int>,
    all: Seq<u32>,
    indices: Seq<u32>,
    message: Seq<u8>,
    c: int,
)
    requires
        all_read_back(f, indices, message),
        0 <= c < order(),
    ensures
        partial_sum(
            c,
            f.map_values(|x: int| 8 * x),
            sorted(all),
            honest_partials(f, all, indices, message, c),
        ) == Ok::<int, ErrorView>(scalar_total(f, all, indices, message, c)),
        0 <= scalar_total(f, all, indices, message, c) < order(),
    decreases indices.len(),
{
    let partials = honest_partials(f, all, indices, message, c);
    if indices.len() > 0 {
        let short = indices.drop_last();
        assert forall|i: int| 0 <= i < short.len() implies reads_back(
            poly(f, #[trigger] short[i] as int),
            message,
        ) by {
            assert(short[i] == indices[i]);
        }
        lemma_scalar_total(f, all, short, message, c);
        let x = indices[indices.len() - 1];
        assert(reads_back(poly(f, x as int), message));
        lemma_honest_check(f, all, x, message, c);
        assert(partials.drop_last() =~= honest_partials(f, all, short, message, c));
    }
}

/// The sum of the contributions is the sum of the nonces and the challenge
/// times what the coefficients make of the shares.
proof fn lemma_total_splits(
    f: Seq<int>,
    all: Seq<u32>,
    indices: Seq<u32>,
    message: Seq<u8>,
    c: int,
)
    ensures
        congruent(
            scalar_total(f, all, indices, message, c),
            nonce_total(f, indices, message) + c * interpolated(
                as_points(indices),
                as_points(all),
                f,
            ),
        ),
    decreases indices.len(),
{
    let xs = as_points(indices);
    if indices.len() == 0 {
        assert(c * 0 == 0) by (nonlinear_arith);
    } else {
        let short = indices.drop_last();
        lemma_total_splits(f, all, short, message, c);
        assert(xs.drop_last() =~= as_points(short));
        let x = indices.last();
        let k = honest_nonce(f, x, message);
        let l = lagrange(x as int, as_points(all));
        let a = poly(f, x as int);
        let t = scalar_total(f, all, short, message, c);
        let n = nonce_total(f, short, message);
        let i = interpolated(as_points(short), as_points(all), f);
        // s == k + c * l * a
        crate::lagrange::lemma_congruent_mod(c * l);
        crate::lagrange::lemma_congruent_mod(a);
        crate::lagrange::lemma_congruent_product((c * l) % order(), c * l, a, a);
        let m = ((c * l) % order()) * a;
        crate::lagrange::lemma_congruent_mod(m);
        crate::lagrange::lemma_congruent_trans(m % order(), m, (c * l) * a);
        crate::lagrange::lemma_congruent_mod(k);
        crate::lagrange::lemma_congruent_sum(k, k, m % order(), (c * l) * a);
        let s = honest_scalar(f, all, x, message, c);
        crate::lagrange::lemma_congruent_mod(k + m % order());
        crate::lagrange::lemma_congruent_trans(s, k + m % order(), k + (c * l) * a);
        // the sums
        crate::lagrange::lemma_congruent_sum(t, n + c * i, s, k + (c * l) * a);
        crate::lagrange::lemma_congruent_mod(t + s);
        crate::lagrange::lemma_congruent_trans(
            (t + s) % order(),
            t + s,
            (n + c * i) + (k + (c * l) * a),
        );
        assert((n + c * i) + (k + (c * l) * a) == (n + k) + c * (i + l * a)) by (nonlinear_arith);
        crate::lagrange::lemma_congruent_mod(n + k);
        crate::lagrange::lemma_congruent_mod(c * (i + l * a));
        crate::lagrange::lemma_congruent_sum(
            n + k,
            (n + k) % order(),
            c * (i + l * a),
            c * (i + l * a),
        );
        crate::lagrange::lemma_congruent_trans(
            (t + s) % order(),
            (n + k) + c * (i + l * a),
            (n + k) % order() + c * (i + l * a),
        );
    }
}

/// A scalar that is a nonce and the challenge times the group's secret
/// satisfies the equation of a signature.
proof fn lemma_equation_of(s: int, k: int, c: int, secret: int)
    requires
        congruent(s, k + c * secret),
        0 <= k < order(),
    ensures
        (8 * s - (c * (8 * secret)) % points()) % points() == 8 * k,
        (8 * s - c * (8 * secret)) % points() == 8 * k,
{
    crate::lagrange::lemma_congruent_mod(c * secret);
    crate::lagrange::lemma_congruent_sum(s, k + c * secret, c * secret, c * secret);
    crate::lagrange::lemma_congruent_same(s - c * secret, k);
    vstd::arithmetic::div_mod::lemma_small_mod(k as nat, order() as nat);
    let d = s - c * secret;
    lemma_eightfold(d);
    assert(c * (8 * secret) == 8 * (c * secret)) by (nonlinear_arith);
    assert(8 * s - c * (8 * secret) == 8 * d);
    lemma_eightfold(c * secret);
    let m = (c * secret) % order();
    lemma_eightfold(s - m);
    assert(8 * s - 8 * m == 8 * (s - m));
    crate::lagrange::lemma_congruent_mod(s);
    crate::lagrange::lemma_congruent_sum(s, s, m, c * secret);
    crate::lagrange::lemma_congruent_same(s - m, d);
}

/// The sum of the contributions of a qualifying set satisfies the equation of
/// a signature under the group key.
proof fn lemma_equation(f: Seq<int>, all: Seq<u32>, message: Seq<u8>, c: int)
    requires
        0 < f.len() <= all.len(),
        separated(as_points(all)),
    ensures
        ({
            let s = scalar_total(f, all, all, message, c);
            let k = nonce_total(f, all, message);
            (8 * s - (c * (8 * f[0])) % points()) % points() == 8 * k && (8 * s - c * (8 * f[0]))
                % points() == 8 * k
        }),
{
    let s = scalar_total(f, all, all, message, c);
    let k = nonce_total(f, all, message);
    let xs = as_points(all);
    let i = interpolated(xs, xs, f);
    lemma_total_splits(f, all, all, message, c);
    crate::lagrange::interpolation_at_zero(xs, f);
    crate::lagrange::lemma_congruent_mod(c);
    crate::lagrange::lemma_congruent_product(c, c, i, f[0]);
    crate::lagrange::lemma_congruent_mod(k);
    crate::lagrange::lemma_congruent_sum(k, k, c * i, c * f[0]);
    crate::lagrange::lemma_congruent_trans(s, k + c * i, k + c * f[0]);
    lemma_nonce_total_range(f, all, message);
    lemma_equation_of(s, k, c, f[0]);
}

/// An accepted partial signature: its nonce point is the base point times a
/// scalar, and its own scalar is that one and the challenge times the
/// coefficient and the share.
proof fn lemma_accepted_partial(
    f: Seq<int>,
    all: Seq<u32>,
    p: PartialView,
    c: int,
) -> (k: int)
    requires
        checked_partial(c, f.map_values(|x: int| 8 * x), sorted(all), p) is Ok,
    ensures
        point_of(p.nonce, off_curve_error()) is Ok,
        point_of(p.nonce, off_curve_error())->Ok_0 % points() == 8 * k,
        0 <= k < order(),
        ({
            let s = checked_partial(c, f.map_values(|x: int| 8 * x), sorted(all), p)->Ok_0;
            congruent(
                s,
                k + c * (lagrange(p.index as int, as_points(all)) * poly(f, p.index as int)),
            )
        }),
{
    let x = p.index as int;
    let numbers = f.map_values(|x: int| 8 * x);
    let s = partial_value(p)->Ok_0;
    let r = point_of(p.nonce, off_curve_error())->Ok_0;
    let l = lagrange(x, as_points(all));
    let a = poly(f, x);
    lemma_lagrange_sorted(x, all);
    lemma_poly_up(f, x);
    lemma_member_number(f, numbers, x);
    let w = (c * l) % order();
    assert(w * (8 * a) == 8 * (w * a)) by (nonlinear_arith);
    lemma_eightfold(w * a);
    let m = (w * a) % order();
    assert(8 * s == (r + 8 * m) % points());
    // r and 8 * (s - m) are the same modulo the number of points
    let q = (r + 8 * m) / points();
    let big = points();
    assert(r + 8 * m == big * q + 8 * s) by {
        vstd::arithmetic::div_mod::lemma_fundamental_div_mod(r + 8 * m, points());
    }
    let d = s - m;
    assert(r == big * q + 8 * d);
    vstd::arithmetic::div_mod::lemma_mod_multiples_vanish(q, 8 * d, big);
    lemma_eightfold(d);
    let k = d % order();
    crate::lagrange::lemma_congruent_mod(d);
    crate::lagrange::lemma_congruent_mod(c * l);
    crate::lagrange::lemma_congruent_mod(a);
    crate::lagrange::lemma_congruent_product(w, c * l, a, a);
    crate::lagrange::lemma_congruent_mod(w * a);
    crate::lagrange::lemma_congruent_trans(m, w * a, (c * l) * a);
    crate::lagrange::lemma_congruent_sum(d, k, m, (c * l) * a);
    assert(d + m == s);
    assert((c * l) * a == c * (l * a)) by (nonlinear_arith);
    k
}

proof fn lemma_accepted_sum(
    f: Seq<int>,
    all: Seq<u32>,
    partials: Seq<PartialView>,
    c: int,
) -> (k: int)
    requires
        partial_sum(c, f.map_values(|x: int| 8 * x), sorted(all), partials) is Ok,
    ensures
        combined_nonce(partials) == Ok::<int, ErrorView>(8 * k),
        0 <= k < order(),
        congruent(
            partial_sum(c, f.map_values(|x: int| 8 * x), sorted(all), partials)->Ok_0,
            k + c * interpolated(as_points(partial_indices(partials)), as_points(all), f),
        ),
    decreases partials.len(),
{
    let numbers = f.map_values(|x: int| 8 * x);
    let xs = as_points(partial_indices(partials));
    if partials.len() == 0 {
        assert(c * 0 == 0) by (nonlinear_arith);
        assert(xs.len() == 0);
        crate::lagrange::lemma_congruent_mod(0);
        0
    } else {
        let short = partials.drop_last();
        let p = partials.last();
        let before = lemma_accepted_sum(f, all, short, c);
        let own = lemma_accepted_partial(f, all, p, c);
        let bad = |i: int| off_curve_error();
        assert(partial_nonces(partials).drop_last() =~= partial_nonces(short));
        let r = point_of(p.nonce, off_curve_error())->Ok_0;
        vstd::arithmetic::div_mod::lemma_add_mod_noop_right(8 * before, r, points());
        assert((8 * before + r) % points() == (8 * before + 8 * own) % points());
        assert(8 * before + 8 * own == 8 * (before + own));
        lemma_eightfold(before + own);
        let k = (before + own) % order();
        let t = partial_sum(c, numbers, sorted(all), short)->Ok_0;
        let s = checked_partial(c, numbers, sorted(all), p)->Ok_0;
        assert(xs.drop_last() =~= as_points(partial_indices(short)));
        assert(xs.last() == p.index as int);
        let i = interpolated(as_points(partial_indices(short)), as_points(all), f);
        let x = p.index as int;
        let g = lagrange(x, as_points(all)) * poly(f, x);
        crate::lagrange::lemma_congruent_sum(t, before + c * i, s, own + c * g);
        crate::lagrange::lemma_congruent_mod(t + s);
        crate::lagrange::lemma_congruent_trans(
            (t + s) % order(),
            t + s,
            (before + c * i) + (own + c * g),
        );
        assert((before + c * i) + (own + c * g) == (before + own) + c * (i + g))
            by (nonlinear_arith);
        crate::lagrange::lemma_congruent_mod(before + own);
        crate::lagrange::lemma_congruent_mod(c * (i + g));
        crate::lagrange::lemma_congruent_sum(before + own, k, c * (i + g), c * (i + g));
        crate::lagrange::lemma_congruent_trans(
            (t + s) % order(),
            (before + own) + c * (i + g),
            k + c * (i + g),
        );
        k
    }
}

/// What combining accepts for a dealt group verifies under the group key.
proof fn lemma_accepted(
    f: Seq<int>,
    group: GroupView,
    message: Seq<u8>,
    partials: Seq<PartialView>,
    signature: GroupSignatureView,
    r: int,
    total: int,
)
    requires
        group_dealt_by(f, group),
        partials.len() == group.threshold,
        partial_indices(partials).no_duplicates(),
        combined_nonce(partials) == Ok::<int, ErrorView>(r),
        readable(r),
        point_bytes(r).len() == 32,
        0 <= total < order(),
        partial_sum(
            challenge(r, unhex32_of(group.group_public)->0, message),
            commitment_points(group.commitments)->Ok_0,
            sorted(partial_indices(partials)),
            partials,
        ) == Ok::<int, ErrorView>(total),
        forall|i: int|
            0 <= i < partials.len() ==> stands_apart(
                (#[trigger] partials[i]).index,
                sorted(partial_indices(partials)),
            ),
        signature == (GroupSignatureView {
            r: hex_text(point_bytes(r)),
            s: hex_text(scalar_bytes(total)),
            signers: sorted(partial_indices(partials)),
            algorithm: ALGORITHM@,
        }),
    ensures
        signature_check(group, message, signature) is Ok,
        ed25519_bytes_of(signature) matches Ok(bytes) && ed25519_accepts(
            unhex32_of(group.group_public)->0,
            message,
            bytes,
        ),
{
    let indices = partial_indices(partials);
    let public = point_bytes(8 * f[0]);
    assert(0 <= f[0] < order());
    lemma_hex32(public);
    lemma_dealt_commitments(f);
    let c = challenge(r, public, message);
    let k = lemma_accepted_sum(f, indices, partials, c);
    sorting_keeps_the_numbers(indices);
    let xs = as_points(indices);
    assert(separated(xs)) by {
        assert forall|i: int, j: int|
            0 <= i < xs.len() && 0 <= j < xs.len() && i != j implies #[trigger] xs[i]
            != #[trigger] xs[j] && invertible((xs[i] - xs[j]) % order()) by {
            assert(indices[i] != indices[j]);
            assert(indices.to_set().contains(indices[i]));
            let t = sorted(indices);
            assert(t.to_set().contains(indices[i]));
            let at = t.index_of(indices[i]);
            assert(t[at] == indices[i]);
            assert(stands_apart(partials[j].index, t));
        }
    }
    let i = interpolated(xs, xs, f);
    crate::lagrange::interpolation_at_zero(xs, f);
    crate::lagrange::lemma_congruent_mod(c);
    crate::lagrange::lemma_congruent_product(c, c, i, f[0]);
    crate::lagrange::lemma_congruent_mod(k);
    crate::lagrange::lemma_congruent_sum(k, k, c * i, c * f[0]);
    crate::lagrange::lemma_congruent_trans(total, k + c * i, k + c * f[0]);
    lemma_equation_of(total, k, c, f[0]);
    crate::curve::lemma_scalar_bytes(total);
    lemma_hex32(scalar_bytes(total));
    lemma_hex32(point_bytes(r));
    let bytes = point_bytes(r) + scalar_bytes(total);
    assert(bytes.take(32) =~= point_bytes(r));
    assert(bytes.skip(32) =~= scalar_bytes(total));
}

proof fn lemma_nonce_total_range(f: Seq<int>, indices: Seq<u32>, message: Seq<u8>)
    ensures
        0 <= nonce_total(f, indices, message) < order(),
{
}

/// Signs with the shares of a qualifying set: both rounds and the combination.
/// With shares that belong to the group it succeeds, and the signature
/// verifies, here and with any Ed25519 verifier.
pub fn sign(group: &GroupKey, shares: &[MemberShare], message: &[u8]) -> (r: Result<
    GroupSignature,
    SignatifError,
>)
    ensures
        viewed(r) == ceremony(group@, share_views(shares@), message@),
        forall|f: Seq<int>| #[trigger]
            dealt_by(f, group@, share_views(shares@)) ==> {
                &&& r is Ok
                &&& signature_check(group@, message@, r->Ok_0@) is Ok
                &&& ed25519_bytes_of(r->Ok_0@) matches Ok(bytes) && ed25519_accepts(
                    unhex32_of(group@.group_public)->0,
                    message@,
                    bytes,
                )
            },
{
    let ghost all = share_views(shares@);
    let ghost indices = share_indices(all);
    assert(all.len() == shares@.len());
    if shares.len() != group.threshold {
        let want = count(group.threshold);
        let have = count(shares.len());
        return Err(
            SignatifError::Validation(
                cat5(
                    "a qualifying set is exactly ",
                    want.as_str(),
                    " shares (",
                    have.as_str(),
                    " given): fewer cannot sign, more are redundant",
                ),
            ),
        );
    }
    let nonces = match first_round(shares, message) {
        Err(e) => {
            proof {
                assert forall|f: Seq<int>| #[trigger] dealt_by(f, group@, all) implies false by {
                    lemma_nonces(f, all, message@);
                }
            }
            return Err(e);
        },
        Ok(n) => n,
    };
    proof {
        assert forall|f: Seq<int>| #[trigger] dealt_by(f, group@, all) implies all_read_back(
            f,
            indices,
            message@,
        ) by {
            assert forall|i: int| 0 <= i < indices.len() implies reads_back(
                poly(f, #[trigger] indices[i] as int),
                message@,
            ) by {
                assert(all[i] == shares@[i]@);
                assert(all[i] == dealt_share(f, all[i].index));
                lemma_dealt_share_scalar(f, all[i].index);
            }
        }
    }
    let partials = match second_round(group, shares, message, &nonces) {
        Err(e) => {
            proof {
                assert forall|f: Seq<int>| #[trigger] dealt_by(f, group@, all) implies false by {
                    lemma_nonces(f, all, message@);
                    let r = 8 * nonce_total(f, indices, message@);
                    assert forall|i: int| 0 <= i < all.len() implies all.contains(
                        #[trigger] all[i],
                    ) by {}
                    lemma_honest_partials(f, group@, all, all, message@, r);
                }
            }
            return Err(e);
        },
        Ok(p) => p,
    };
    let r = combine(group, message, partials.as_slice());
    proof {
        assert forall|f: Seq<int>| #[trigger] dealt_by(f, group@, all) implies r is Ok
            && signature_check(group@, message@, r->Ok_0@) is Ok && (ed25519_bytes_of(
            r->Ok_0@,
        ) matches Ok(bytes) && ed25519_accepts(
            unhex32_of(group@.group_public)->0,
            message@,
            bytes,
        )) by {
            assert forall|i: int| 0 <= i < shares@.len() implies stands_apart(
                (#[trigger] shares@[i]).index,
                indices,
            ) by {}
            assert forall|i: int| 0 <= i < indices.len() implies stands_apart(
                #[trigger] indices[i],
                indices,
            ) by {
                assert(indices[i] == shares@[i].index);
            }
            lemma_ceremony(f, group@, all, message@, r, partial_views(partials@));
        }
    }
    r
}

proof fn lemma_ceremony(
    f: Seq<int>,
    group: GroupView,
    shares: Seq<ShareView>,
    message: Seq<u8>,
    r: Result<GroupSignature, SignatifError>,
    partials: Seq<PartialView>,
)
    requires
        dealt_by(f, group, shares),
        all_read_back(f, share_indices(shares), message),
        forall|i: int|
            0 <= i < shares.len() ==> stands_apart(
                #[trigger] share_indices(shares)[i],
                share_indices(shares),
            ),
        all_partials(
            group,
            shares,
            message,
            share_indices(shares),
            all_nonces(shares, message)->Ok_0,
        ) == Ok::<Seq<PartialView>, ErrorView>(partials),
        viewed(r) == combined(group, message, partials),
        r is Ok ==> readable(combined_nonce(partials)->Ok_0) && point_bytes(
            combined_nonce(partials)->Ok_0,
        ).len() == 32,
    ensures
        r is Ok,
        signature_check(group, message, r->Ok_0@) is Ok,
        ed25519_bytes_of(r->Ok_0@) matches Ok(bytes) && ed25519_accepts(
            unhex32_of(group.group_public)->0,
            message,
            bytes,
        ),
{
    let indices = share_indices(shares);
    let k = nonce_total(f, indices, message);
    let public = point_bytes(8 * f[0]);
    let c = challenge(8 * k, public, message);
    lemma_nonces(f, shares, message);
    assert forall|i: int| 0 <= i < shares.len() implies shares.contains(#[trigger] shares[i]) by {}
    lemma_honest_partials(f, group, shares, shares, message, 8 * k);
    assert(partials == honest_partials(f, indices, indices, message, c));
    assert(partial_indices(partials) =~= indices);
    assert(partial_nonces(partials) =~= honest_nonces(f, indices, message));
    lemma_nonce_total(f, indices, message, |i: int| off_curve_error());
    assert(combined_nonce(partials) == Ok::<int, ErrorView>(8 * k));
    assert(0 <= f[0] < order());
    lemma_hex32(public);
    lemma_dealt_commitments(f);
    lemma_scalar_total(f, indices, indices, message, c);
    let s = scalar_total(f, indices, indices, message, c);
    crate::curve::lemma_scalar_bytes(s);
    lemma_hex32(scalar_bytes(s));
    lemma_hex32(point_bytes(8 * k));
    sorting_keeps_the_numbers(indices);
    let xs = as_points(indices);
    assert(separated(xs)) by {
        assert forall|i: int, j: int|
            0 <= i < xs.len() && 0 <= j < xs.len() && i != j implies #[trigger] xs[i]
            != #[trigger] xs[j] && invertible((xs[i] - xs[j]) % order()) by {
            assert(indices[i] != indices[j]);
            assert(stands_apart(indices[j], indices));
        }
    }
    lemma_equation(f, indices, message, c);
    let bytes = point_bytes(8 * k) + scalar_bytes(s);
    assert(bytes.take(32) =~= point_bytes(8 * k));
    assert(bytes.skip(32) =~= scalar_bytes(s));
}

/// The partial signatures that the shares of a qualifying set make over their
/// own nonce points combine: an honest ceremony succeeds.
pub proof fn honest_contributions_combine(
    f: Seq<int>,
    group: GroupView,
    shares: Seq<ShareView>,
    message: Seq<u8>,
    nonces: Seq<Seq<char>>,
    partials: Seq<PartialView>,
)
    requires
        dealt_by(f, group, shares),
        forall|i: int|
            0 <= i < shares.len() ==> reads_back(
                share_scalar(#[trigger] shares[i])->Ok_0,
                message,
            ),
        nonces.len() == shares.len(),
        forall|i: int|
            0 <= i < shares.len() ==> nonce_point_of(#[trigger] shares[i], message) == Ok::<
                Seq<char>,
                ErrorView,
            >(nonces[i]),
        partials.len() == shares.len(),
        forall|i: int|
            0 <= i < shares.len() ==> partial_of(
                group,
                #[trigger] shares[i],
                message,
                share_indices(shares),
                nonces,
            ) == Ok::<PartialView, ErrorView>(partials[i]),
    ensures
        combined(group, message, partials) is Ok,
        unhex32_of(group.group_public) is Some,
{
    let indices = share_indices(shares);
    let k = nonce_total(f, indices, message);
    let public = point_bytes(8 * f[0]);
    let c = challenge(8 * k, public, message);
    assert forall|i: int| 0 <= i < indices.len() implies reads_back(
        poly(f, #[trigger] indices[i] as int),
        message,
    ) by {
        assert(shares[i] == dealt_share(f, shares[i].index));
        lemma_dealt_share_scalar(f, shares[i].index);
    }
    assert(nonces =~= honest_nonces(f, indices, message)) by {
        assert forall|i: int| 0 <= i < nonces.len() implies nonces[i] == honest_nonces(
            f,
            indices,
            message,
        )[i] by {
            assert(shares[i] == dealt_share(f, shares[i].index));
            lemma_dealt_share_scalar(f, shares[i].index);
        }
    }
    assert(0 <= f[0] < order());
    lemma_hex32(public);
    assert(partials =~= honest_partials(f, indices, indices, message, c)) by {
        lemma_nonce_total(f, indices, message, |i: int| nonce_error(indices[i]));
        assert forall|i: int| 0 <= i < partials.len() implies partials[i] == honest_partials(
            f,
            indices,
            indices,
            message,
            c,
        )[i] by {
            assert(shares[i] == dealt_share(f, shares[i].index));
            lemma_dealt_share_scalar(f, shares[i].index);
        }
    }
    assert(partial_indices(partials) =~= indices);
    assert(partial_nonces(partials) =~= nonces);
    lemma_nonce_total(f, indices, message, |i: int| off_curve_error());
    lemma_dealt_commitments(f);
    lemma_scalar_total(f, indices, indices, message, c);
}

/// The group key whose members were read from a file.
pub open spec fn group_of_members(
    threshold: MemberView,
    members: MemberView,
    group_public: MemberView,
    commitments: MemberView,
    algorithm: MemberView,
) -> Result<GroupView, ErrorView> {
    if algorithm.text() != ALGORITHM@ {
        Err(
            ErrorView::Validation(
                "group algorithm `"@ + algorithm.text() + "` is not `"@ + ALGORITHM@ + "`"@,
            ),
        )
    } else {
        Ok(
            GroupView {
                threshold: threshold.number() as usize,
                members: members.number() as usize,
                group_public: group_public.text(),
                commitments: commitments.texts(),
                algorithm: algorithm.text(),
            },
        )
    }
}

/// The group key in a file.
pub open spec fn group_in(text: Seq<char>) -> Result<GroupView, ErrorView> {
    match json_fault(text) {
        Some(m) => Err(ErrorView::Validation("group file: "@ + m)),
        None => group_of_members(
            json_member(text, "threshold"@),
            json_member(text, "members"@),
            json_member(text, "group_public"@),
            json_member(text, "commitments"@),
            json_member(text, "algorithm"@),
        ),
    }
}

/// The share in a file.
pub open spec fn share_in(text: Seq<char>) -> Result<ShareView, ErrorView> {
    match json_fault(text) {
        Some(m) => Err(ErrorView::Validation("share file: "@ + m)),
        None => Ok(share_of_members(json_member(text, "index"@), json_member(text, "share"@))),
    }
}

/// The share whose members were read from a file.
pub open spec fn share_of_members(index: MemberView, share: MemberView) -> ShareView {
    ShareView { index: index.number() as u32, share: share.text() }
}

/// The signature whose members were read from a file.
pub open spec fn signature_of_members(
    r: MemberView,
    s: MemberView,
    signers: MemberView,
    algorithm: MemberView,
) -> GroupSignatureView {
    GroupSignatureView {
        r: r.text(),
        s: s.text(),
        signers: signers.numbers().map_values(|n: u64| n as u32),
        algorithm: algorithm.text(),
    }
}

/// The signature in a file.
pub open spec fn signature_in(text: Seq<char>) -> Result<GroupSignatureView, ErrorView> {
    match json_fault(text) {
        Some(m) => Err(ErrorView::Validation("signature file: "@ + m)),
        None => Ok(
            signature_of_members(
                json_member(text, "r"@),
                json_member(text, "s"@),
                json_member(text, "signers"@),
                json_member(text, "algorithm"@),
            ),
        ),
    }
}

/// The members of a group file.
pub open spec fn group_file(g: GroupView) -> Seq<(Seq<char>, MemberView)> {
    seq![
        ("threshold"@, MemberView::Number(g.threshold as u64)),
        ("members"@, MemberView::Number(g.members as u64)),
        ("group_public"@, MemberView::Text(g.group_public)),
        (
            "commitments"@,
            MemberView::List(g.commitments.map_values(|t: Seq<char>| ItemView::Text(t))),
        ),
        ("algorithm"@, MemberView::Text(g.algorithm)),
    ]
}

/// The members of a share file.
pub open spec fn share_file(m: ShareView) -> Seq<(Seq<char>, MemberView)> {
    seq![
        ("index"@, MemberView::Number(m.index as u64)),
        ("share"@, MemberView::Text(m.share)),
    ]
}

/// The members of a signature file.
pub open spec fn signature_file(g: GroupSignatureView) -> Seq<(Seq<char>, MemberView)> {
    seq![
        ("r"@, MemberView::Text(g.r)),
        ("s"@, MemberView::Text(g.s)),
        (
            "signers"@,
            MemberView::List(g.signers.map_values(|n: u32| ItemView::Number(n as u64))),
        ),
        ("algorithm"@, MemberView::Text(g.algorithm)),
    ]
}

impl GroupKey {
    /// The group key whose members were read from a file. A member that is
    /// missing, or of another type, counts as zero or as empty.
    pub fn of_members(
        threshold: &JsonMember,
        members: &JsonMember,
        group_public: &JsonMember,
        commitments: &JsonMember,
        algorithm: &JsonMember,
    ) -> (r: Result<GroupKey, SignatifError>)
        ensures
            viewed(r) == group_of_members(
                threshold@,
                members@,
                group_public@,
                commitments@,
                algorithm@,
            ),
    {
        let label = algorithm.text();
        if !same_text(label.as_str(), ALGORITHM) {
            return Err(
                SignatifError::Validation(
                    cat5("group algorithm `", label.as_str(), "` is not `", ALGORITHM, "`"),
                ),
            );
        }
        Ok(
            GroupKey {
                threshold: threshold.number() as usize,
                members: members.number() as usize,
                group_public: group_public.text(),
                commitments: commitments.texts(),
                algorithm: label,
            },
        )
    }

    /// Reads a group file.
    pub fn from_json(text: &str) -> (r: Result<GroupKey, SignatifError>)
        ensures
            viewed(r) == group_in(text@),
    {
        if let Err(m) = json_check(text) {
            return Err(SignatifError::Validation(cat2("group file: ", m.as_str())));
        }
        GroupKey::of_members(
            &json_read(text, "threshold"),
            &json_read(text, "members"),
            &json_read(text, "group_public"),
            &json_read(text, "commitments"),
            &json_read(text, "algorithm"),
        )
    }

    /// The text of a group file. It reads back as the group.
    pub fn to_json(&self) -> (r: String)
        ensures
            r@ == json_pretty(group_file(self@)),
            self@.algorithm == ALGORITHM@ ==> group_in(r@) == Ok::<GroupView, ErrorView>(self@),
    {
        proof {
            reveal_strlit("threshold");
            reveal_strlit("members");
            reveal_strlit("group_public");
            reveal_strlit("commitments");
            reveal_strlit("algorithm");
            assert("commitments"@[10] == 's');
            assert("commitments"@[0] == 'c');
            assert("group_public"@[0] == 'g');
            assert("algorithm"@[0] == 'a');
            assert("members"@[0] == 'm');
            assert("threshold"@[0] == 't');
        }
        let list = text_list(&self.commitments);
        let members: [(&str, JsonMember); 5] = [
            ("threshold", JsonMember::Number(self.threshold as u64)),
            ("members", JsonMember::Number(self.members as u64)),
            ("group_public", JsonMember::Text(self.group_public.clone())),
            ("commitments", list),
            ("algorithm", JsonMember::Text(self.algorithm.clone())),
        ];
        let ghost all = members@;
        let r = json_write(members.as_slice());
        proof {
            assert(json_member(r@, all[0].0@) == all[0].1@);
            assert(json_member(r@, all[1].0@) == all[1].1@);
            assert(json_member(r@, all[2].0@) == all[2].1@);
            assert(json_member(r@, all[3].0@) == all[3].1@);
            assert(json_member(r@, all[4].0@) == all[4].1@);
            assert(member_views(all) =~= group_file(self@));
        }
        r
    }
}

impl MemberShare {
    /// The share whose members were read from a file.
    pub fn of_members(index: &JsonMember, share: &JsonMember) -> (r: MemberShare)
        ensures
            r@ == share_of_members(index@, share@),
    {
        MemberShare { index: index.number() as u32, share: share.text() }
    }

    /// Reads a share file.
    pub fn from_json(text: &str) -> (r: Result<MemberShare, SignatifError>)
        ensures
            viewed(r) == share_in(text@),
    {
        if let Err(m) = json_check(text) {
            return Err(SignatifError::Validation(cat2("share file: ", m.as_str())));
        }
        Ok(MemberShare::of_members(&json_read(text, "index"), &json_read(text, "share")))
    }

    /// The text of a share file. It reads back as the share.
    pub fn to_json(&self) -> (r: String)
        ensures
            r@ == json_pretty(share_file(self@)),
            share_in(r@) == Ok::<ShareView, ErrorView>(self@),
    {
        proof {
            reveal_strlit("index");
            reveal_strlit("share");
            assert("index"@[0] == 'i');
            assert("share"@[0] == 's');
        }
        let members: [(&str, JsonMember); 2] = [
            ("index", JsonMember::Number(self.index as u64)),
            ("share", JsonMember::Text(self.share.clone())),
        ];
        let ghost all = members@;
        let r = json_write(members.as_slice());
        proof {
            assert(json_member(r@, all[0].0@) == all[0].1@);
            assert(json_member(r@, all[1].0@) == all[1].1@);
            assert(member_views(all) =~= share_file(self@));
        }
        r
    }
}

fn narrowed(s: &Vec<u64>) -> (r: Vec<u32>)
    ensures
        r@ == s@.map_values(|n: u64| n as u32),
{
    let mut out: Vec<u32> = Vec::new();
    let mut i: usize = 0;
    while i < s.len()
        invariant
            i <= s.len(),
            out@ =~= s@.take(i as int).map_values(|n: u64| n as u32),
        decreases s.len() - i,
    {
        out.push(s[i] as u32);
        i += 1;
    }
    assert(s@.take(i as int) =~= s@);
    out
}

impl GroupSignature {
    /// The signature whose members were read from a file.
    pub fn of_members(
        r_half: &JsonMember,
        s_half: &JsonMember,
        signers: &JsonMember,
        algorithm: &JsonMember,
    ) -> (r: GroupSignature)
        ensures
            r@ == signature_of_members(r_half@, s_half@, signers@, algorithm@),
    {
        let numbers = signers.numbers();
        GroupSignature {
            r: r_half.text(),
            s: s_half.text(),
            signers: narrowed(&numbers),
            algorithm: algorithm.text(),
        }
    }

    /// Reads a signature file.
    pub fn from_json(text: &str) -> (r: Result<GroupSignature, SignatifError>)
        ensures
            viewed(r) == signature_in(text@),
    {
        if let Err(m) = json_check(text) {
            return Err(SignatifError::Validation(cat2("signature file: ", m.as_str())));
        }
        Ok(
            GroupSignature::of_members(
                &json_read(text, "r"),
                &json_read(text, "s"),
                &json_read(text, "signers"),
                &json_read(text, "algorithm"),
            ),
        )
    }

    /// The text of a signature file. It reads back as the signature.
    pub fn to_json(&self) -> (r: String)
        ensures
            r@ == json_pretty(signature_file(self@)),
            signature_in(r@) == Ok::<GroupSignatureView, ErrorView>(self@),
    {
        proof {
            reveal_strlit("r");
            reveal_strlit("s");
            reveal_strlit("signers");
            reveal_strlit("algorithm");
            assert("r"@.len() == 1 && "r"@[0] == 'r');
            assert("s"@.len() == 1 && "s"@[0] == 's');
            assert("signers"@.len() == 7);
            assert("algorithm"@.len() == 9);
        }
        let list = number_items(&self.signers);
        let members: [(&str, JsonMember); 4] = [
            ("r", JsonMember::Text(self.r.clone())),
            ("s", JsonMember::Text(self.s.clone())),
            ("signers", list),
            ("algorithm", JsonMember::Text(self.algorithm.clone())),
        ];
        let ghost all = members@;
        let r = json_write(members.as_slice());
        proof {
            assert(json_member(r@, all[0].0@) == all[0].1@);
            assert(json_member(r@, all[1].0@) == all[1].1@);
            assert(json_member(r@, all[2].0@) == all[2].1@);
            assert(json_member(r@, all[3].0@) == all[3].1@);
            assert(self.signers@.map_values(|n: u32| n as u64).map_values(|n: u64| n as u32)
                =~= self.signers@);
            assert(member_views(all) =~= signature_file(self@));
        }
        r
    }
}

impl PartialSignature {
    /// Whether two partial signatures are the same.
    pub fn same(&self, other: &PartialSignature) -> (r: bool)
        ensures
            r == (self@ == other@),
    {
        self.index == other.index && same_text(self.nonce.as_str(), other.nonce.as_str())
            && same_text(self.partial.as_str(), other.partial.as_str())
    }
}

impl Clone for PartialSignature {
    fn clone(&self) -> (r: PartialSignature)
        ensures
            r@ == self@,
    {
        PartialSignature {
            index: self.index,
            nonce: self.nonce.clone(),
            partial: self.partial.clone(),
        }
    }
}

impl Clone for GroupKey {
    fn clone(&self) -> (r: GroupKey)
        ensures
            r@ == self@,
    {
        let commitments = self.commitments.clone();
        assert(texts(commitments@) =~= texts(self.commitments@));
        GroupKey {
            threshold: self.threshold,
            members: self.members,
            group_public: self.group_public.clone(),
            commitments,
            algorithm: self.algorithm.clone(),
        }
    }
}

impl Clone for GroupSignature {
    fn clone(&self) -> (r: GroupSignature)
        ensures
            r@ == self@,
    {
        let signers = self.signers.clone();
        assert(signers@ =~= self.signers@);
        GroupSignature {
            r: self.r.clone(),
            s: self.s.clone(),
            signers,
            algorithm: self.algorithm.clone(),
        }
    }
}

} // verus!
