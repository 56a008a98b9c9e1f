//! What shares, partial signatures and group signatures promise.

use vstd::prelude::*;

use crate::curve::{ed25519_accepts, le_value, order, point_bytes, point_log, points};
use crate::lagrange::poly;
use crate::threshold::{
    challenge, checked_partial, combined, combined_nonce, commitment_points, committed, dealt_group,
    nonce_error, partial_indices, partial_of, partial_sum, share_check, share_scalar,
    signature_check, sorted, sum_of_points, unhex32_of, GroupSignatureView, GroupView, PartialView,
    ShareView,
};
use crate::ErrorView;

verus! {

/// A share passes the check of a dealt group exactly when it is the one that was
/// dealt: the value of the group's polynomial at the member's number. Any other
/// scalar fails it.
pub proof fn only_dealt_shares_pass(f: Seq<int>, members: usize, share: ShareView)
    requires
        committed(f),
        0 < f.len() <= usize::MAX,
        1 <= share.index <= members,
    ensures
        share_check(dealt_group(f, members), share) == Ok::<bool, ErrorView>(true)
            <==> share_scalar(share) == Ok::<int, ErrorView>(poly(f, share.index as int)),
        share_check(dealt_group(f, members), share) is Err <==> share_scalar(share) is Err,
{
    crate::threshold::lemma_dealt_point(f, share.index);
}

/// A share in a number that no member has is an error, whatever it holds.
pub proof fn shares_need_a_member(group: GroupView, share: ShareView)
    ensures
        share.index == 0 || share.index > group.members ==> share_check(group, share) is Err,
        group.commitments.len() != group.threshold ==> share_check(group, share) is Err,
{
}

proof fn lemma_congruence(x: int, r: int)
    ensures
        x % points() == r ==> (x - r) % points() == 0,
        0 <= r < points() && (x - r) % points() == 0 ==> x % points() == r,
{
    let p = points();
    assert(p > 0);
    vstd::arithmetic::div_mod::lemma_fundamental_div_mod(x, p);
    vstd::arithmetic::div_mod::lemma_fundamental_div_mod(x - r, p);
    let q = x / p;
    let k = (x - r) / p;
    if x % p == r {
        assert(x - r == q * p + 0) by (nonlinear_arith)
            requires
                x == p * q + r,
        ;
        vstd::arithmetic::div_mod::lemma_fundamental_div_mod_converse(x - r, p, q, 0);
    }
    if 0 <= r < p && (x - r) % p == 0 {
        assert(x == k * p + r) by (nonlinear_arith)
            requires
                x - r == p * k + 0,
        ;
        vstd::arithmetic::div_mod::lemma_fundamental_div_mod_converse(x, p, k, r);
    }
}

/// A group signature passes exactly when it names as many signers as the
/// threshold, its parts can be read, its scalar is below the order, and eight
/// times the scalar is, up to the number of points, the nonce's number and the
/// challenge times the key's.
pub proof fn group_signatures_meet_the_equation(
    group: GroupView,
    message: Seq<u8>,
    g: GroupSignatureView,
    a: int,
    r: int,
    key: Seq<u8>,
    nonce: Seq<u8>,
    scalar: Seq<u8>,
)
    requires
        unhex32_of(group.group_public) == Some(key),
        unhex32_of(g.r) == Some(nonce),
        unhex32_of(g.s) == Some(scalar),
        point_log(key) == Some(a),
        point_log(nonce) == Some(r),
        0 <= r < points(),
    ensures
        signature_check(group, message, g) is Ok <==> g.signers.len() == group.threshold
            && le_value(scalar) < order() && (8 * le_value(scalar) - challenge(r, key, message) * a
            - r) % points() == 0,
{
    let s = le_value(scalar);
    let c = challenge(r, key, message);
    vstd::arithmetic::div_mod::lemma_sub_mod_noop(8 * s, (c * a) % points(), points());
    vstd::arithmetic::div_mod::lemma_sub_mod_noop(8 * s, c * a, points());
    vstd::arithmetic::div_mod::lemma_mod_twice(c * a, points());
    lemma_congruence(8 * s - c * a, r);
}

/// A group signature that passes is an Ed25519 signature under the group's key,
/// its nonce point in front of its scalar.
pub proof fn group_signatures_are_ed25519_signatures(
    group: GroupView,
    message: Seq<u8>,
    g: GroupSignatureView,
    r: int,
    key: Seq<u8>,
    nonce: Seq<u8>,
    scalar: Seq<u8>,
)
    requires
        unhex32_of(group.group_public) == Some(key),
        unhex32_of(g.r) == Some(nonce),
        unhex32_of(g.s) == Some(scalar),
        point_log(nonce) == Some(r),
        point_bytes(r) == nonce,
        nonce.len() == 32,
        signature_check(group, message, g) is Ok,
    ensures
        ed25519_accepts(key, message, nonce + scalar),
{
    let s = le_value(scalar);
    let c = challenge(r, key, message);
    let a = point_log(key)->0;
    vstd::arithmetic::div_mod::lemma_sub_mod_noop(8 * s, (c * a) % points(), points());
    vstd::arithmetic::div_mod::lemma_sub_mod_noop(8 * s, c * a, points());
    vstd::arithmetic::div_mod::lemma_mod_twice(c * a, points());
    let all = nonce + scalar;
    assert(all.take(32) =~= nonce);
    assert(all.skip(32) =~= scalar);
}

/// What cannot be read does not pass, and neither does a wrong number of
/// signers.
pub proof fn unreadable_signatures_fail(group: GroupView, message: Seq<u8>, g: GroupSignatureView)
    ensures
        signature_check(group, message, g) is Ok ==> g.signers.len() == group.threshold && (
        unhex32_of(group.group_public) matches Some(key) && point_log(key) is Some) && (unhex32_of(
            g.r,
        ) matches Some(nonce) && point_log(nonce) is Some) && (unhex32_of(g.s) matches Some(scalar)
            && le_value(scalar) < order()),
{
}

proof fn lemma_partial_sum(
    c: int,
    commitments: Seq<int>,
    signers: Seq<u32>,
    partials: Seq<PartialView>,
)
    ensures
        partial_sum(c, commitments, signers, partials) is Ok <==> forall|i: int|
            0 <= i < partials.len() ==> checked_partial(
                c,
                commitments,
                signers,
                #[trigger] partials[i],
            ) is Ok,
    decreases partials.len(),
{
    if partials.len() > 0 {
        let short = partials.drop_last();
        let n = partials.len() - 1;
        lemma_partial_sum(c, commitments, signers, short);
        if partial_sum(c, commitments, signers, partials) is Ok {
            assert forall|i: int| 0 <= i < partials.len() implies checked_partial(
                c,
                commitments,
                signers,
                #[trigger] partials[i],
            ) is Ok by {
                if i < n {
                    assert(short[i] == partials[i]);
                }
            }
        }
        if forall|i: int|
            0 <= i < partials.len() ==> checked_partial(
                c,
                commitments,
                signers,
                #[trigger] partials[i],
            ) is Ok {
            assert forall|i: int| 0 <= i < short.len() implies checked_partial(
                c,
                commitments,
                signers,
                #[trigger] short[i],
            ) is Ok by {
                assert(short[i] == partials[i]);
            }
            assert(checked_partial(c, commitments, signers, partials[n]) is Ok);
        }
    }
}

/// Partial signatures combine exactly when there are as many as the threshold,
/// no member contributed twice, and each passes the check against the group's
/// commitments. The signature names the members that contributed.
pub proof fn partials_combine_when_each_passes(
    group: GroupView,
    message: Seq<u8>,
    partials: Seq<PartialView>,
    r: int,
    key: Seq<u8>,
    commitments: Seq<int>,
)
    requires
        combined_nonce(partials) == Ok::<int, ErrorView>(r),
        unhex32_of(group.group_public) == Some(key),
        commitment_points(group.commitments) == Ok::<Seq<int>, ErrorView>(commitments),
    ensures
        combined(group, message, partials) is Ok <==> partials.len() == group.threshold && (forall|
            i: int,
            j: int,
        |
            0 <= i < j < partials.len() ==> (#[trigger] partials[i]).index != (
            #[trigger] partials[j]).index) && (forall|i: int|
            0 <= i < partials.len() ==> checked_partial(
                challenge(r, key, message),
                commitments,
                sorted(partial_indices(partials)),
                #[trigger] partials[i],
            ) is Ok),
        combined(group, message, partials) matches Ok(g) ==> g.signers.len() == partials.len()
            && g.signers.to_set() == partial_indices(partials).to_set(),
{
    let all = partial_indices(partials);
    lemma_partial_sum(challenge(r, key, message), commitments, sorted(all), partials);
    crate::threshold::sorting_keeps_the_numbers(all);
    assert forall|i: int| 0 <= i < partials.len() implies all[i] == (
    #[trigger] partials[i]).index by {}
    if all.no_duplicates() {
        assert forall|i: int, j: int| 0 <= i < j < partials.len() implies (
        #[trigger] partials[i]).index != (#[trigger] partials[j]).index by {
            assert(all[i] != all[j]);
        }
    }
    if forall|i: int, j: int|
        0 <= i < j < partials.len() ==> (#[trigger] partials[i]).index != (
        #[trigger] partials[j]).index {
        assert forall|i: int, j: int| 0 <= i < all.len() && 0 <= j < all.len() && i != j implies
            all[i] != all[j] by {
            if i < j {
                assert(partials[i].index != partials[j].index);
            } else {
                assert(partials[j].index != partials[i].index);
            }
        }
    }
}

/// A member signs only within a qualifying set that they are part of, and under
/// their own number.
pub proof fn partials_are_for_a_qualifying_set(
    group: GroupView,
    share: ShareView,
    message: Seq<u8>,
    indices: Seq<u32>,
    nonces: Seq<Seq<char>>,
)
    ensures
        partial_of(group, share, message, indices, nonces) matches Ok(p) ==> indices.len()
            >= group.threshold && indices.contains(share.index) && p.index == share.index,
        indices.len() >= group.threshold && indices.contains(share.index) && share_scalar(
            share,
        ) is Ok && unhex32_of(group.group_public) is Some && sum_of_points(
            nonces,
            |i: int| nonce_error(indices[i]),
        ) is Ok ==> partial_of(group, share, message, indices, nonces) is Ok,
{
}

} // verus!
