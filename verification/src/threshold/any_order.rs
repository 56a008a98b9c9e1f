//! A qualifying set is a set: the order in which its members come changes
//! nothing about the signature.

use vstd::prelude::*;
use vstd::seq_lib::{
    commutative_foldl, lemma_fold_left_permutation, lemma_sorted_unique, to_multiset_build,
    to_multiset_contains, to_multiset_insert, to_multiset_len, to_multiset_remove,
};

use crate::curve::{order, points};
use crate::lagrange::lagrange;
use crate::threshold::{
    all_nonces, all_partials, as_points, ceremony, challenge, checked_partial, combined,
    combined_nonce, commitment_points, lemma_lagrange_sorted, lemma_place_of, nonce_error,
    nonce_point_of, off_curve_error, partial_indices, partial_nonces, partial_of, partial_sum,
    place_of, point_of, share_indices, sorted, sorting_keeps_the_numbers, sum_of_points,
    unhex32_of, GroupView, PartialView, ShareView,
};
use crate::ErrorView;

verus! {

/// Lists of the same items have the same members.
proof fn lemma_members<A>(s: Seq<A>, t: Seq<A>)
    requires
        s.to_multiset() == t.to_multiset(),
    ensures
        s.len() == t.len(),
        forall|x: A|
            #![trigger s.contains(x)]
            #![trigger t.contains(x)]
            s.contains(x) == t.contains(x),
{
    to_multiset_len(s);
    to_multiset_len(t);
    assert forall|x: A| #[trigger] s.contains(x) == t.contains(x) by {
        to_multiset_contains(s, x);
        to_multiset_contains(t, x);
    }
}

/// Lists of the same items are mapped to lists of the same images.
proof fn lemma_images<A, B>(s: Seq<A>, t: Seq<A>, f: spec_fn(A) -> B)
    requires
        s.to_multiset() == t.to_multiset(),
    ensures
        s.map_values(f).to_multiset() == t.map_values(f).to_multiset(),
    decreases s.len(),
{
    lemma_members(s, t);
    if s.len() == 0 {
        assert(s.map_values(f) =~= t.map_values(f));
    } else {
        let a = s.last();
        assert(s.contains(a)) by {
            assert(s[s.len() - 1] == a);
        }
        let i = t.index_of(a);
        let u = t.remove(i);
        let front = s.drop_last();
        assert(s =~= front.push(a));
        to_multiset_build(front, a);
        to_multiset_remove(t, i);
        assert(front.to_multiset() =~= u.to_multiset());
        lemma_images(front, u, f);
        assert(s.map_values(f) =~= front.map_values(f).push(f(a)));
        to_multiset_build(front.map_values(f), f(a));
        assert(t.map_values(f) =~= u.map_values(f).insert(i, f(a)));
        to_multiset_insert(u.map_values(f), i, f(a));
    }
}

proof fn lemma_sorted_items(s: Seq<u32>)
    ensures
        sorted(s).to_multiset() == s.to_multiset(),
    decreases s.len(),
{
    if s.len() > 0 {
        let t = sorted(s.drop_last());
        lemma_sorted_items(s.drop_last());
        lemma_place_of(t, s.last());
        to_multiset_insert(t, place_of(t, s.last()), s.last());
        to_multiset_build(s.drop_last(), s.last());
        assert(s =~= s.drop_last().push(s.last()));
    }
}

/// Sorting gives the same for every order of the same numbers.
pub proof fn sorting_ignores_the_order(s: Seq<u32>, t: Seq<u32>)
    requires
        s.to_multiset() == t.to_multiset(),
    ensures
        sorted(s) == sorted(t),
{
    let leq = |x: u32, y: u32| x <= y;
    lemma_sorted_items(s);
    lemma_sorted_items(t);
    sorting_keeps_the_numbers(s);
    sorting_keeps_the_numbers(t);
    lemma_sorted_unique(sorted(s), sorted(t), leq);
}

/// Whether a text encodes a point.
spec fn is_point(text: Seq<char>) -> bool {
    point_of(text, off_curve_error()) is Ok
}

/// A running sum of points.
spec fn add_point(sum: int, text: Seq<char>) -> int {
    (sum + point_of(text, off_curve_error())->Ok_0) % points()
}

proof fn lemma_sum(items: Seq<Seq<char>>, bad: spec_fn(int) -> ErrorView)
    ensures
        sum_of_points(items, bad) is Ok == (forall|i: int|
            0 <= i < items.len() ==> is_point(#[trigger] items[i])),
        sum_of_points(items, bad) is Ok ==> sum_of_points(items, bad)->Ok_0 == items.fold_left(
            0int,
            |sum: int, text: Seq<char>| add_point(sum, text),
        ),
    decreases items.len(),
{
    if items.len() > 0 {
        let front = items.drop_last();
        lemma_sum(front, bad);
        if sum_of_points(items, bad) is Ok {
            assert forall|i: int| 0 <= i < items.len() implies is_point(#[trigger] items[i]) by {
                if i < front.len() {
                    assert(is_point(front[i]));
                }
            }
        }
        if forall|i: int| 0 <= i < items.len() ==> is_point(#[trigger] items[i]) {
            assert forall|i: int| 0 <= i < front.len() implies is_point(#[trigger] front[i]) by {
                assert(is_point(items[i]));
            }
            assert(is_point(items[items.len() - 1]));
        }
    }
}

/// Sums modulo a number do not depend on the order.
proof fn lemma_mod_sums(v: int, x: int, y: int, n: int)
    requires
        n > 0,
    ensures
        ((v + x) % n + y) % n == ((v + y) % n + x) % n,
{
    vstd::arithmetic::div_mod::lemma_add_mod_noop_right(y, v + x, n);
    vstd::arithmetic::div_mod::lemma_add_mod_noop_right(x, v + y, n);
}

proof fn lemma_sum_in_any_order(
    items: Seq<Seq<char>>,
    others: Seq<Seq<char>>,
    bad: spec_fn(int) -> ErrorView,
    worse: spec_fn(int) -> ErrorView,
)
    requires
        items.to_multiset() == others.to_multiset(),
        sum_of_points(items, bad) is Ok,
    ensures
        sum_of_points(others, worse) == sum_of_points(items, bad),
{
    let f = |sum: int, text: Seq<char>| add_point(sum, text);
    lemma_sum(items, bad);
    lemma_sum(others, worse);
    lemma_members(items, others);
    assert forall|i: int| 0 <= i < others.len() implies is_point(#[trigger] others[i]) by {
        assert(others.contains(others[i]));
        let k = items.index_of(others[i]);
        assert(is_point(items[k]));
    }
    assert(commutative_foldl(f)) by {
        assert forall|x: Seq<char>, y: Seq<char>, v: int| #[trigger]
            f(f(v, x), y) == f(f(v, y), x) by {
            lemma_mod_sums(
                v,
                point_of(x, off_curve_error())->Ok_0,
                point_of(y, off_curve_error())->Ok_0,
                points(),
            );
        }
    }
    lemma_fold_left_permutation(items, others, f, 0int);
}

/// Whether a partial signature passes its check.
#[verifier::opaque]
spec fn passes(c: int, commitments: Seq<int>, signers: Seq<u32>, p: PartialView) -> bool {
    checked_partial(c, commitments, signers, p) is Ok
}

/// A running sum of partial signatures.
#[verifier::opaque]
spec fn add_partial(
    c: int,
    commitments: Seq<int>,
    signers: Seq<u32>,
    sum: int,
    p: PartialView,
) -> int {
    (sum + checked_partial(c, commitments, signers, p)->Ok_0) % order()
}

proof fn lemma_partial_sum(
    c: int,
    commitments: Seq<int>,
    signers: Seq<u32>,
    partials: Seq<PartialView>,
)
    ensures
        partial_sum(c, commitments, signers, partials) is Ok == (forall|i: int|
            0 <= i < partials.len() ==> passes(c, commitments, signers, #[trigger] partials[i])),
        partial_sum(c, commitments, signers, partials) is Ok ==> partial_sum(
            c,
            commitments,
            signers,
            partials,
        )->Ok_0 == partials.fold_left(
            0int,
            |sum: int, p: PartialView| add_partial(c, commitments, signers, sum, p),
        ),
    decreases partials.len(),
{
    if partials.len() > 0 {
        let front = partials.drop_last();
        let last = partials[partials.len() - 1];
        lemma_partial_sum(c, commitments, signers, front);
        assert(passes(c, commitments, signers, last) == checked_partial(
            c,
            commitments,
            signers,
            last,
        ) is Ok) by {
            reveal(passes);
        }
        reveal(add_partial);
        if partial_sum(c, commitments, signers, partials) is Ok {
            assert forall|i: int| 0 <= i < partials.len() implies passes(
                c,
                commitments,
                signers,
                #[trigger] partials[i],
            ) by {
                if i < front.len() {
                    assert(passes(c, commitments, signers, front[i]));
                }
            }
        }
        if forall|i: int|
            0 <= i < partials.len() ==> passes(c, commitments, signers, #[trigger] partials[i]) {
            assert forall|i: int| 0 <= i < front.len() implies passes(
                c,
                commitments,
                signers,
                #[trigger] front[i],
            ) by {
                assert(passes(c, commitments, signers, partials[i]));
            }
        }
    }
}

proof fn lemma_partial_sum_in_any_order(
    c: int,
    commitments: Seq<int>,
    signers: Seq<u32>,
    partials: Seq<PartialView>,
    others: Seq<PartialView>,
)
    requires
        partials.to_multiset() == others.to_multiset(),
        partial_sum(c, commitments, signers, partials) is Ok,
    ensures
        partial_sum(c, commitments, signers, others) == partial_sum(
            c,
            commitments,
            signers,
            partials,
        ),
{
    let f = |sum: int, p: PartialView| add_partial(c, commitments, signers, sum, p);
    lemma_partial_sum(c, commitments, signers, partials);
    lemma_partial_sum(c, commitments, signers, others);
    lemma_members(partials, others);
    assert forall|i: int| 0 <= i < others.len() implies passes(
        c,
        commitments,
        signers,
        #[trigger] others[i],
    ) by {
        assert(others.contains(others[i]));
        let k = partials.index_of(others[i]);
        assert(passes(c, commitments, signers, partials[k]));
    }
    assert(commutative_foldl(f)) by {
        assert forall|x: PartialView, y: PartialView, v: int| #[trigger]
            f(f(v, x), y) == f(f(v, y), x) by {
            reveal(add_partial);
            lemma_mod_sums(
                v,
                checked_partial(c, commitments, signers, x)->Ok_0,
                checked_partial(c, commitments, signers, y)->Ok_0,
                order(),
            );
        }
    }
    lemma_fold_left_permutation(partials, others, f, 0int);
}

proof fn lemma_distinct_in_any_order(s: Seq<u32>, t: Seq<u32>)
    requires
        s.to_multiset() == t.to_multiset(),
        s.no_duplicates(),
    ensures
        t.no_duplicates(),
{
    lemma_members(s, t);
    assert(s.to_set() =~= t.to_set());
    s.unique_seq_to_set();
    t.lemma_no_dup_set_cardinality();
}

/// Combining partial signatures gives the same in every order.
pub proof fn partial_order_does_not_matter(
    group: GroupView,
    message: Seq<u8>,
    partials: Seq<PartialView>,
    others: Seq<PartialView>,
)
    requires
        partials.to_multiset() == others.to_multiset(),
        combined(group, message, partials) is Ok,
    ensures
        combined(group, message, others) == combined(group, message, partials),
{
    let index = |p: PartialView| p.index;
    let nonce = |p: PartialView| p.nonce;
    lemma_members(partials, others);
    lemma_images(partials, others, index);
    lemma_images(partials, others, nonce);
    assert(partial_indices(partials) =~= partials.map_values(index));
    assert(partial_indices(others) =~= others.map_values(index));
    assert(partial_nonces(partials) =~= partials.map_values(nonce));
    assert(partial_nonces(others) =~= others.map_values(nonce));
    lemma_distinct_in_any_order(partial_indices(partials), partial_indices(others));
    sorting_ignores_the_order(partial_indices(partials), partial_indices(others));
    lemma_sum_in_any_order(
        partial_nonces(partials),
        partial_nonces(others),
        |i: int| off_curve_error(),
        |i: int| off_curve_error(),
    );
    lemma_partial_sum_in_any_order(
        challenge(
            combined_nonce(partials)->Ok_0,
            unhex32_of(group.group_public)->0,
            message,
        ),
        commitment_points(group.commitments)->Ok_0,
        sorted(partial_indices(partials)),
        partials,
        others,
    );
}

proof fn lemma_nonces_of_each(shares: Seq<ShareView>, message: Seq<u8>)
    ensures
        all_nonces(shares, message) is Ok == (forall|i: int|
            0 <= i < shares.len() ==> nonce_point_of(#[trigger] shares[i], message) is Ok),
        all_nonces(shares, message) is Ok ==> all_nonces(shares, message)->Ok_0
            == shares.map_values(|m: ShareView| nonce_point_of(m, message)->Ok_0),
    decreases shares.len(),
{
    let f = |m: ShareView| nonce_point_of(m, message)->Ok_0;
    if shares.len() == 0 {
        assert(shares.map_values(f) =~= Seq::<Seq<char>>::empty());
    } else {
        let front = shares.drop_last();
        lemma_nonces_of_each(front, message);
        assert(shares.map_values(f) =~= front.map_values(f).push(f(shares.last())));
        if all_nonces(shares, message) is Ok {
            assert forall|i: int| 0 <= i < shares.len() implies nonce_point_of(
                #[trigger] shares[i],
                message,
            ) is Ok by {
                if i < front.len() {
                    assert(nonce_point_of(front[i], message) is Ok);
                }
            }
        }
        if forall|i: int|
            0 <= i < shares.len() ==> nonce_point_of(#[trigger] shares[i], message) is Ok {
            assert forall|i: int| 0 <= i < front.len() implies nonce_point_of(
                #[trigger] front[i],
                message,
            ) is Ok by {
                assert(nonce_point_of(shares[i], message) is Ok);
            }
            assert(nonce_point_of(shares[shares.len() - 1], message) is Ok);
        }
    }
}

/// Whether a share makes a contribution.
#[verifier::opaque]
spec fn contributes(
    group: GroupView,
    share: ShareView,
    message: Seq<u8>,
    indices: Seq<u32>,
    nonces: Seq<Seq<char>>,
) -> bool {
    partial_of(group, share, message, indices, nonces) is Ok
}

/// The contribution of a share.
#[verifier::opaque]
spec fn contribution(
    group: GroupView,
    share: ShareView,
    message: Seq<u8>,
    indices: Seq<u32>,
    nonces: Seq<Seq<char>>,
) -> PartialView {
    partial_of(group, share, message, indices, nonces)->Ok_0
}

proof fn lemma_partials_of_each(
    group: GroupView,
    shares: Seq<ShareView>,
    message: Seq<u8>,
    indices: Seq<u32>,
    nonces: Seq<Seq<char>>,
)
    ensures
        all_partials(group, shares, message, indices, nonces) is Ok == (forall|i: int|
            0 <= i < shares.len() ==> contributes(
                group,
                #[trigger] shares[i],
                message,
                indices,
                nonces,
            )),
        all_partials(group, shares, message, indices, nonces) is Ok ==> all_partials(
            group,
            shares,
            message,
            indices,
            nonces,
        )->Ok_0 == shares.map_values(
            |m: ShareView| contribution(group, m, message, indices, nonces),
        ),
    decreases shares.len(),
{
    let f = |m: ShareView| contribution(group, m, message, indices, nonces);
    if shares.len() == 0 {
        assert(shares.map_values(f) =~= Seq::<PartialView>::empty());
    } else {
        let front = shares.drop_last();
        let last = shares[shares.len() - 1];
        lemma_partials_of_each(group, front, message, indices, nonces);
        assert(shares.map_values(f) =~= front.map_values(f).push(f(last)));
        assert(contributes(group, last, message, indices, nonces) == partial_of(
            group,
            last,
            message,
            indices,
            nonces,
        ) is Ok) by {
            reveal(contributes);
        }
        assert(f(last) == partial_of(group, last, message, indices, nonces)->Ok_0) by {
            reveal(contribution);
        }
        if all_partials(group, shares, message, indices, nonces) is Ok {
            assert forall|i: int| 0 <= i < shares.len() implies contributes(
                group,
                #[trigger] shares[i],
                message,
                indices,
                nonces,
            ) by {
                if i < front.len() {
                    assert(contributes(group, front[i], message, indices, nonces));
                }
            }
        }
        if forall|i: int|
            0 <= i < shares.len() ==> contributes(
                group,
                #[trigger] shares[i],
                message,
                indices,
                nonces,
            ) {
            assert forall|i: int| 0 <= i < front.len() implies contributes(
                group,
                #[trigger] front[i],
                message,
                indices,
                nonces,
            ) by {
                assert(contributes(group, shares[i], message, indices, nonces));
            }
        }
    }
}

/// What a member contributes does not depend on the order of the others.
proof fn lemma_partial_in_any_order(
    group: GroupView,
    share: ShareView,
    message: Seq<u8>,
    indices: Seq<u32>,
    nonces: Seq<Seq<char>>,
    other_indices: Seq<u32>,
    other_nonces: Seq<Seq<char>>,
)
    requires
        indices.to_multiset() == other_indices.to_multiset(),
        nonces.to_multiset() == other_nonces.to_multiset(),
        contributes(group, share, message, indices, nonces),
    ensures
        contributes(group, share, message, other_indices, other_nonces),
        contribution(group, share, message, other_indices, other_nonces) == contribution(
            group,
            share,
            message,
            indices,
            nonces,
        ),
{
    reveal(contributes);
    reveal(contribution);
    lemma_members(indices, other_indices);
    lemma_sum_in_any_order(
        nonces,
        other_nonces,
        |i: int| nonce_error(indices[i]),
        |i: int| nonce_error(other_indices[i]),
    );
    sorting_ignores_the_order(indices, other_indices);
    lemma_lagrange_sorted(share.index as int, indices);
    lemma_lagrange_sorted(share.index as int, other_indices);
    assert(lagrange(share.index as int, as_points(indices)) == lagrange(
        share.index as int,
        as_points(other_indices),
    ));
}

/// The signature belongs to the qualifying set and the message: the order of
/// the shares changes nothing.
pub proof fn share_order_does_not_matter(
    group: GroupView,
    shares: Seq<ShareView>,
    others: Seq<ShareView>,
    message: Seq<u8>,
)
    requires
        shares.to_multiset() == others.to_multiset(),
        ceremony(group, shares, message) is Ok,
    ensures
        ceremony(group, others, message) == ceremony(group, shares, message),
{
    let index = |m: ShareView| m.index;
    let nonce = |m: ShareView| nonce_point_of(m, message)->Ok_0;
    lemma_members(shares, others);
    lemma_images(shares, others, index);
    lemma_images(shares, others, nonce);
    lemma_nonces_of_each(shares, message);
    lemma_nonces_of_each(others, message);
    assert forall|i: int| 0 <= i < others.len() implies nonce_point_of(
        #[trigger] others[i],
        message,
    ) is Ok by {
        assert(others.contains(others[i]));
        let k = shares.index_of(others[i]);
        assert(nonce_point_of(shares[k], message) is Ok);
    }
    let indices = share_indices(shares);
    let nonces = all_nonces(shares, message)->Ok_0;
    let other_indices = share_indices(others);
    let other_nonces = all_nonces(others, message)->Ok_0;
    assert(indices =~= shares.map_values(index));
    assert(other_indices =~= others.map_values(index));
    assert(nonces =~= shares.map_values(nonce));
    assert(other_nonces =~= others.map_values(nonce));
    lemma_partials_of_each(group, shares, message, indices, nonces);
    lemma_partials_of_each(group, others, message, other_indices, other_nonces);
    let part = |m: ShareView| contribution(group, m, message, indices, nonces);
    let other_part = |m: ShareView|
        contribution(group, m, message, other_indices, other_nonces);
    assert forall|i: int| 0 <= i < others.len() implies contributes(
        group,
        #[trigger] others[i],
        message,
        other_indices,
        other_nonces,
    ) && other_part(others[i]) == part(others[i]) by {
        assert(others.contains(others[i]));
        let k = shares.index_of(others[i]);
        assert(contributes(group, shares[k], message, indices, nonces));
        lemma_partial_in_any_order(
            group,
            others[i],
            message,
            indices,
            nonces,
            other_indices,
            other_nonces,
        );
    }
    assert(others.map_values(other_part) =~= others.map_values(part));
    lemma_images(shares, others, part);
    partial_order_does_not_matter(
        group,
        message,
        shares.map_values(part),
        others.map_values(part),
    );
}

} // verus!
