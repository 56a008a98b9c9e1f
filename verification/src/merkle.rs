//! The Merkle tree of the transparency log: roots, inclusion paths and
//! consistency proofs as functions of the leaves, and why the proofs verify.
//!
//! A leaf hash is the digest of the byte 1 and the entry; an inner hash is the
//! digest of the byte 2 and both children. A tree of `n` leaves splits at the
//! largest power of two below `n`.

use vstd::arithmetic::power2::{lemma_pow2_strictly_increases, lemma_pow2_unfold, pow2};
use vstd::prelude::*;

use crate::digest::sha256_of;

verus! {

/// The bytes whose digest is the hash of a leaf.
pub open spec fn leaf_bytes(entry: Seq<u8>) -> Seq<u8> {
    seq![1u8] + entry
}

/// The hash of a leaf.
pub open spec fn leaf_of(entry: Seq<u8>) -> Seq<u8> {
    sha256_of(leaf_bytes(entry))
}

/// The bytes whose digest is the hash of an inner node.
pub open spec fn inner_bytes(left: Seq<u8>, right: Seq<u8>) -> Seq<u8> {
    seq![2u8] + left + right
}

/// The hash of an inner node.
pub open spec fn inner_of(left: Seq<u8>, right: Seq<u8>) -> Seq<u8> {
    sha256_of(inner_bytes(left, right))
}

/// Whether two byte strings are a collision of the digest.
pub open spec fn collide(a: Seq<u8>, b: Seq<u8>) -> bool {
    a != b && sha256_of(a) == sha256_of(b)
}

/// The largest number below `n` among `k`, `2k`, `4k` and so on.
pub open spec fn split_from(k: int, n: int) -> int
    decreases n - k,
{
    if 0 < k && 2 * k < n {
        split_from(2 * k, n)
    } else {
        k
    }
}

/// The largest power of two below `n`.
pub open spec fn split_of(n: int) -> int {
    split_from(1, n)
}

/// Whether a number is a power of two.
pub open spec fn is_power_of_two(k: int) -> bool {
    exists|e: nat| k == #[trigger] pow2(e)
}

proof fn lemma_split_from(k: int, n: int)
    requires
        1 <= k < n,
        is_power_of_two(k),
    ensures
        1 <= split_from(k, n) < n <= 2 * split_from(k, n),
        is_power_of_two(split_from(k, n)),
    decreases n - k,
{
    if 2 * k < n {
        let e = choose|e: nat| k == #[trigger] pow2(e);
        lemma_pow2_unfold(e + 1);
        assert(2 * k == pow2(e + 1));
        lemma_split_from(2 * k, n);
    }
}

/// The split of `n` is a power of two that is below `n` but not by half.
pub proof fn split_is_the_power_of_two_below(n: int)
    requires
        2 <= n,
    ensures
        1 <= split_of(n) < n <= 2 * split_of(n),
        is_power_of_two(split_of(n)),
{
    vstd::arithmetic::power2::lemma2_to64();
    assert(pow2(0) == 1);
    lemma_split_from(1, n);
}

/// There is one power of two below `n` but not by half.
proof fn lemma_split_unique(n: int, a: int, b: int)
    requires
        is_power_of_two(a),
        is_power_of_two(b),
        a < n <= 2 * a,
        b < n <= 2 * b,
    ensures
        a == b,
{
    let x = choose|e: nat| a == #[trigger] pow2(e);
    let y = choose|e: nat| b == #[trigger] pow2(e);
    if x < y {
        lemma_pow2_unfold(x + 1);
        if x + 1 < y {
            lemma_pow2_strictly_increases(x + 1, y);
        }
    } else if y < x {
        lemma_pow2_unfold(y + 1);
        if y + 1 < x {
            lemma_pow2_strictly_increases(y + 1, x);
        }
    }
}

/// The root of the tree over leaves; meaningful for at least one leaf.
pub open spec fn root_of(leaves: Seq<Seq<u8>>) -> Seq<u8>
    decreases leaves.len(),
{
    if leaves.len() <= 1 {
        leaves[0]
    } else {
        let k = split_of(leaves.len() as int);
        if 0 < k < leaves.len() {
            inner_of(root_of(leaves.take(k)), root_of(leaves.skip(k)))
        } else {
            leaves[0]
        }
    }
}

/// One step of an inclusion path: the sibling, and whether it is on the left.
pub type Step = (Seq<u8>, bool);

/// The siblings from the leaf at a position up to the root.
pub open spec fn path_of(m: int, leaves: Seq<Seq<u8>>) -> Seq<Step>
    decreases leaves.len(),
{
    if leaves.len() <= 1 {
        Seq::empty()
    } else {
        let k = split_of(leaves.len() as int);
        if !(0 < k < leaves.len()) {
            Seq::empty()
        } else if m < k {
            path_of(m, leaves.take(k)).push((root_of(leaves.skip(k)), false))
        } else {
            path_of(m - k, leaves.skip(k)).push((root_of(leaves.take(k)), true))
        }
    }
}

/// The hash that a path leads to from a hash.
pub open spec fn climb(start: Seq<u8>, path: Seq<Step>) -> Seq<u8>
    decreases path.len(),
{
    if path.len() == 0 {
        start
    } else {
        let below = climb(start, path.drop_last());
        if path.last().1 {
            inner_of(path.last().0, below)
        } else {
            inner_of(below, path.last().0)
        }
    }
}

/// The path of a leaf leads from the leaf to the root: every inclusion proof
/// that the log gives out verifies.
pub proof fn inclusion_paths_lead_to_the_root(m: int, leaves: Seq<Seq<u8>>)
    requires
        0 <= m < leaves.len(),
    ensures
        climb(leaves[m], path_of(m, leaves)) == root_of(leaves),
    decreases leaves.len(),
{
    if leaves.len() > 1 {
        split_is_the_power_of_two_below(leaves.len() as int);
        let k = split_of(leaves.len() as int);
        let path = path_of(m, leaves);
        if m < k {
            inclusion_paths_lead_to_the_root(m, leaves.take(k));
            assert(path.drop_last() =~= path_of(m, leaves.take(k)));
            assert(leaves.take(k)[m] == leaves[m]);
        } else {
            inclusion_paths_lead_to_the_root(m - k, leaves.skip(k));
            assert(path.drop_last() =~= path_of(m - k, leaves.skip(k)));
            assert(leaves.skip(k)[m - k] == leaves[m]);
        }
    }
}

/// The bytes that are hashed at a step of a path from a hash.
pub open spec fn climb_bytes(start: Seq<u8>, path: Seq<Step>, i: int) -> Seq<u8> {
    let below = climb(start, path.take(i));
    if path[i].1 {
        inner_bytes(path[i].0, below)
    } else {
        inner_bytes(below, path[i].0)
    }
}

proof fn lemma_inner_bytes(a: Seq<u8>, b: Seq<u8>, sibling: Seq<u8>)
    requires
        a != b,
    ensures
        inner_bytes(a, sibling) != inner_bytes(b, sibling),
        inner_bytes(sibling, a) != inner_bytes(sibling, b),
{
    let n = sibling.len() as int;
    let x = inner_bytes(a, sibling);
    let y = inner_bytes(b, sibling);
    if x == y {
        assert(x.len() == y.len());
        assert(a =~= x.subrange(1, 1 + a.len() as int));
        assert(b =~= y.subrange(1, 1 + b.len() as int));
    }
    let x = inner_bytes(sibling, a);
    let y = inner_bytes(sibling, b);
    if x == y {
        assert(a =~= x.skip(1 + n));
        assert(b =~= y.skip(1 + n));
    }
}

/// A path leads from two different hashes to one root only by a collision, at a
/// step of the path.
pub proof fn paths_keep_hashes_apart(a: Seq<u8>, b: Seq<u8>, path: Seq<Step>)
    requires
        a != b,
        climb(a, path) == climb(b, path),
    ensures
        exists|i: int|
            0 <= i < path.len() && collide(
                #[trigger] climb_bytes(a, path, i),
                climb_bytes(b, path, i),
            ),
    decreases path.len(),
{
    if path.len() > 0 {
        let short = path.drop_last();
        let n = path.len() - 1;
        assert(path.take(n) =~= short);
        if climb(a, short) == climb(b, short) {
            paths_keep_hashes_apart(a, b, short);
            let i = choose|i: int|
                0 <= i < short.len() && collide(
                    #[trigger] climb_bytes(a, short, i),
                    climb_bytes(b, short, i),
                );
            assert(short.take(i) =~= path.take(i));
            assert(short[i] == path[i]);
            assert(climb_bytes(a, path, i) == climb_bytes(a, short, i));
            assert(climb_bytes(b, path, i) == climb_bytes(b, short, i));
        } else {
            lemma_inner_bytes(climb(a, short), climb(b, short), path[n].0);
            assert(path.last() == path[n]);
            assert(collide(climb_bytes(a, path, n), climb_bytes(b, path, n)));
        }
    }
}

/// The nodes that show that the first `m` leaves are a prefix of the tree. The
/// root of the prefix itself is left out where the verifier holds it.
pub open spec fn prefix_proof(m: int, leaves: Seq<Seq<u8>>, anchored: bool) -> Seq<Seq<u8>>
    decreases leaves.len(),
{
    if m == leaves.len() || leaves.len() <= 1 {
        if anchored {
            Seq::empty()
        } else {
            seq![root_of(leaves)]
        }
    } else {
        let k = split_of(leaves.len() as int);
        if !(0 < k < leaves.len()) {
            Seq::empty()
        } else if m <= k {
            prefix_proof(m, leaves.take(k), anchored).push(root_of(leaves.skip(k)))
        } else {
            prefix_proof(m - k, leaves.skip(k), false).push(root_of(leaves.take(k)))
        }
    }
}

/// The roots of the prefix and of the tree that a proof reconstructs, and the
/// nodes it leaves over; `None` when it has too few.
pub open spec fn reconstruct(
    m: int,
    n: int,
    proof_nodes: Seq<Seq<u8>>,
    known: Option<Seq<u8>>,
) -> Option<(Seq<u8>, Seq<u8>, Seq<Seq<u8>>)>
    decreases n,
{
    if m == n || n <= 1 {
        match known {
            Some(h) => Some((h, h, proof_nodes)),
            None => if proof_nodes.len() == 0 {
                None
            } else {
                Some((proof_nodes[0], proof_nodes[0], proof_nodes.skip(1)))
            },
        }
    } else {
        let k = split_of(n);
        if !(0 < k < n) {
            None
        } else if m <= k {
            match reconstruct(m, k, proof_nodes, known) {
                None => None,
                Some((o, w, rest)) => if rest.len() == 0 {
                    None
                } else {
                    Some((o, inner_of(w, rest[0]), rest.skip(1)))
                },
            }
        } else {
            match reconstruct(m - k, n - k, proof_nodes, None) {
                None => None,
                Some((o, w, rest)) => if rest.len() == 0 {
                    None
                } else {
                    Some((inner_of(rest[0], o), inner_of(rest[0], w), rest.skip(1)))
                },
            }
        }
    }
}

/// How many nodes show that the first `m` of `n` leaves are a prefix.
pub open spec fn proof_length(m: int, n: int, anchored: bool) -> nat
    decreases n,
{
    if m == n || n <= 1 {
        if anchored {
            0
        } else {
            1
        }
    } else {
        let k = split_of(n);
        if !(0 < k < n) {
            0
        } else if m <= k {
            proof_length(m, k, anchored) + 1
        } else {
            proof_length(m - k, n - k, false) + 1
        }
    }
}

/// Nodes reconstruct the roots exactly when there are enough of them, and what
/// is left over is what is too many.
pub proof fn reconstruction_takes_its_length(
    m: int,
    n: int,
    proof_nodes: Seq<Seq<u8>>,
    known: Option<Seq<u8>>,
)
    requires
        0 < m <= n,
    ensures
        reconstruct(m, n, proof_nodes, known) is Some == (proof_nodes.len() >= proof_length(
            m,
            n,
            known is Some,
        )),
        reconstruct(m, n, proof_nodes, known) matches Some(x) ==> x.2 == proof_nodes.skip(
            proof_length(m, n, known is Some) as int,
        ),
    decreases n,
{
    if m == n {
        assert(proof_nodes.skip(0) =~= proof_nodes);
    } else {
        split_is_the_power_of_two_below(n);
        let k = split_of(n);
        let (a, b, inner) = if m <= k {
            (m, k, known)
        } else {
            (m - k, n - k, None)
        };
        reconstruction_takes_its_length(a, b, proof_nodes, inner);
        let used = proof_length(a, b, inner is Some) as int;
        if proof_nodes.len() >= used + 1 {
            assert(proof_nodes.skip(used).skip(1) =~= proof_nodes.skip(used + 1));
        }
    }
}

/// Nodes as the right-hand steps of a path.
pub open spec fn right_steps(proof_nodes: Seq<Seq<u8>>) -> Seq<Step> {
    proof_nodes.map_values(|h: Seq<u8>| (h, false))
}

/// Two prefix roots that the verifier may hold: either the nodes make up the
/// prefix root by themselves, or they lead from it up to the root of the tree.
proof fn lemma_known_roots(
    m: int,
    n: int,
    proof_nodes: Seq<Seq<u8>>,
    a: Seq<u8>,
    b: Seq<u8>,
)
    requires
        0 < m <= n,
        reconstruct(m, n, proof_nodes, Some(a)) is Some,
        reconstruct(m, n, proof_nodes, Some(b)) is Some,
    ensures
        ({
            let x = reconstruct(m, n, proof_nodes, Some(a))->0;
            let y = reconstruct(m, n, proof_nodes, Some(b))->0;
            let path = right_steps(proof_nodes.take(proof_length(m, n, true) as int));
            x.0 == y.0 || (x.1 == climb(a, path) && y.1 == climb(b, path))
        }),
    decreases n,
{
    reconstruction_takes_its_length(m, n, proof_nodes, Some(a));
    if m == n {
        assert(right_steps(proof_nodes.take(0)) =~= Seq::<Step>::empty());
    } else {
        split_is_the_power_of_two_below(n);
        let k = split_of(n);
        if m <= k {
            lemma_known_roots(m, k, proof_nodes, a, b);
            reconstruction_takes_its_length(m, k, proof_nodes, Some(a));
            reconstruction_takes_its_length(m, k, proof_nodes, Some(b));
            let used = proof_length(m, k, true) as int;
            let path = right_steps(proof_nodes.take(used + 1));
            assert(path.drop_last() =~= right_steps(proof_nodes.take(used)));
            assert(path.last() == (proof_nodes[used], false));
            assert(proof_nodes.skip(used)[0] == proof_nodes[used]);
        }
    }
}

/// One proof reconstructs one root of the tree from two prefix roots, each as
/// given, only by a collision, at a step up from the prefix.
pub proof fn prefix_roots_are_kept_apart(
    m: int,
    n: int,
    proof_nodes: Seq<Seq<u8>>,
    a: Seq<u8>,
    b: Seq<u8>,
)
    requires
        0 < m <= n,
        a != b,
        reconstruct(m, n, proof_nodes, Some(a)) matches Some(x) && x.0 == a && x.2.len() == 0,
        reconstruct(m, n, proof_nodes, Some(b)) matches Some(y) && y.0 == b && y.2.len() == 0,
        (reconstruct(m, n, proof_nodes, Some(a))->0).1 == (reconstruct(
            m,
            n,
            proof_nodes,
            Some(b),
        )->0).1,
    ensures
        exists|i: int|
            0 <= i < proof_nodes.len() && collide(
                #[trigger] climb_bytes(a, right_steps(proof_nodes), i),
                climb_bytes(b, right_steps(proof_nodes), i),
            ),
{
    lemma_known_roots(m, n, proof_nodes, a, b);
    reconstruction_takes_its_length(m, n, proof_nodes, Some(a));
    assert(proof_nodes.take(proof_length(m, n, true) as int) =~= proof_nodes);
    paths_keep_hashes_apart(a, b, right_steps(proof_nodes));
}

/// The proof of a prefix reconstructs the root of the prefix and the root of
/// the tree, and leaves nothing over: every consistency proof that the log
/// gives out verifies.
pub proof fn prefix_proofs_reconstruct_the_roots(
    m: int,
    leaves: Seq<Seq<u8>>,
    anchored: bool,
    rest: Seq<Seq<u8>>,
)
    requires
        0 < m <= leaves.len(),
    ensures
        reconstruct(
            m,
            leaves.len() as int,
            prefix_proof(m, leaves, anchored) + rest,
            if anchored {
                Some(root_of(leaves.take(m)))
            } else {
                None
            },
        ) == Some((root_of(leaves.take(m)), root_of(leaves), rest)),
    decreases leaves.len(),
{
    let n = leaves.len() as int;
    let known = if anchored {
        Some(root_of(leaves.take(m)))
    } else {
        None
    };
    let nodes = prefix_proof(m, leaves, anchored) + rest;
    if m == n {
        assert(leaves.take(m) =~= leaves);
        if anchored {
            assert(nodes =~= rest);
        } else {
            assert(nodes[0] == root_of(leaves));
            assert(nodes.skip(1) =~= rest);
        }
    } else {
        split_is_the_power_of_two_below(n);
        let k = split_of(n);
        let left = leaves.take(k);
        let right = leaves.skip(k);
        if m <= k {
            let tail = seq![root_of(right)] + rest;
            prefix_proofs_reconstruct_the_roots(m, left, anchored, tail);
            assert(left.take(m) =~= leaves.take(m));
            assert(prefix_proof(m, left, anchored) + tail =~= nodes);
            assert(tail[0] == root_of(right));
            assert(tail.skip(1) =~= rest);
        } else {
            let tail = seq![root_of(left)] + rest;
            prefix_proofs_reconstruct_the_roots(m - k, right, false, tail);
            assert(prefix_proof(m - k, right, false) + tail =~= nodes);
            assert(tail[0] == root_of(left));
            assert(tail.skip(1) =~= rest);
            let prefix = leaves.take(m);
            split_is_the_power_of_two_below(m);
            lemma_split_unique(m, split_of(m), k);
            assert(prefix.take(k) =~= left);
            assert(prefix.skip(k) =~= right.take(m - k));
            assert(right.take(m - k).len() == m - k);
        }
    }
}

} // verus!
