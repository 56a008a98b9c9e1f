//! What transparency logs and their witnesses promise.

use vstd::prelude::*;

use crate::anchor::{
    anchor_payload, consistency_check, inclusion_check, steps, witnessing_logs,
    ExternalAnchorMethod, InclusionProof, SignedTreeHead,
};
use crate::bytes::utf8;
use crate::canon::text_field;
use crate::digest::sha256_of;
use crate::keyring::PublicKey;
use crate::laws::signatures::{slots_pass_when_the_key_accepts, sound_under};
use crate::maps::TextMap;
use crate::merkle::{
    climb, inner_bytes, is_power_of_two, leaf_bytes, leaf_of, root_of,
    split_is_the_power_of_two_below, split_of,
};
use crate::segments::{spine_leaves, spine_root};
use crate::sign::SigningDomain;

verus! {

/// A leaf is never hashed as an inner node: what is hashed of a leaf and what is
/// hashed of a node differ, and each tells what it was made of.
pub proof fn leaves_and_nodes_hash_apart(
    e: Seq<u8>,
    f: Seq<u8>,
    a: Seq<u8>,
    b: Seq<u8>,
    c: Seq<u8>,
    d: Seq<u8>,
)
    ensures
        leaf_bytes(e) != inner_bytes(a, b),
        leaf_bytes(e)[0] == 1 && leaf_bytes(e).skip(1) == e,
        inner_bytes(a, b)[0] == 2 && inner_bytes(a, b).skip(1) == a + b,
        leaf_bytes(e) == leaf_bytes(f) ==> e == f,
        a.len() == c.len() && inner_bytes(a, b) == inner_bytes(c, d) ==> a == c && b == d,
{
    assert(leaf_bytes(e)[0] != inner_bytes(a, b)[0]);
    assert(leaf_bytes(e).skip(1) =~= e);
    assert(inner_bytes(a, b).skip(1) =~= a + b);
    if leaf_bytes(e) == leaf_bytes(f) {
        assert(e =~= leaf_bytes(e).skip(1));
        assert(f =~= leaf_bytes(f).skip(1));
    }
    if a.len() == c.len() && inner_bytes(a, b) == inner_bytes(c, d) {
        let x = inner_bytes(a, b);
        let y = inner_bytes(c, d);
        assert(a =~= x.subrange(1, 1 + a.len() as int));
        assert(c =~= y.subrange(1, 1 + c.len() as int));
        assert(b =~= x.skip(1 + a.len() as int));
        assert(d =~= y.skip(1 + c.len() as int));
    }
}

/// The tree over one leaf is the leaf. The tree over more is the node over two
/// trees: on the left that over as many leaves as the greatest power of two
/// below their number, on the right that over the others.
pub proof fn trees_split_at_the_power_of_two(left: Seq<Seq<u8>>, right: Seq<Seq<u8>>, leaf: Seq<u8>)
    requires
        right.len() > 0,
        is_power_of_two(left.len() as int),
        left.len() < left.len() + right.len() <= 2 * left.len(),
    ensures
        root_of(seq![leaf]) == leaf,
        root_of(left + right) == sha256_of(
            seq![2u8] + (root_of(left) + root_of(right)),
        ),
{
    let all = left + right;
    let n = all.len() as int;
    split_is_the_power_of_two_below(n);
    let k = split_of(n);
    lemma_one_power(k, left.len() as int, n);
    assert(all.take(left.len() as int) =~= left);
    assert(all.skip(left.len() as int) =~= right);
    assert(inner_bytes(root_of(left), root_of(right)) =~= seq![2u8] + (root_of(left) + root_of(
        right,
    )));
}

proof fn lemma_one_power(a: int, b: int, n: int)
    requires
        is_power_of_two(a),
        is_power_of_two(b),
        a < n <= 2 * a,
        b < n <= 2 * b,
    ensures
        a == b,
{
    let x = choose|x: nat| #[trigger] vstd::arithmetic::power2::pow2(x) == a;
    let y = choose|y: nat| #[trigger] vstd::arithmetic::power2::pow2(y) == b;
    if x < y {
        vstd::arithmetic::power2::lemma_pow2_unfold((x + 1) as nat);
        if x + 1 < y {
            vstd::arithmetic::power2::lemma_pow2_strictly_increases((x + 1) as nat, y);
        }
    }
    if y < x {
        vstd::arithmetic::power2::lemma_pow2_unfold((y + 1) as nat);
        if y + 1 < x {
            vstd::arithmetic::power2::lemma_pow2_strictly_increases((y + 1) as nat, x);
        }
    }
}

/// What is submitted for a digest holds the digest: a time-stamp request between
/// its fixed parts, a lightweight one in front of its meeting point.
pub proof fn submissions_hold_the_digest(method: ExternalAnchorMethod, digest: Seq<u8>)
    requires
        digest.len() == 32,
    ensures
        method is Rfc3161 ==> anchor_payload(method, digest).len() == 59 && anchor_payload(
            method,
            digest,
        ).subrange(24, 56) == digest,
        method matches ExternalAnchorMethod::OtsLite { rendezvous } ==> anchor_payload(
            method,
            digest,
        ).take(32) == digest && anchor_payload(method, digest).skip(32) == utf8(rendezvous@),
{
    let p = anchor_payload(method, digest);
    match method {
        ExternalAnchorMethod::Rfc3161 => {
            assert(p.subrange(24, 56) =~= digest);
        },
        ExternalAnchorMethod::OtsLite { rendezvous } => {
            assert(p.take(32) =~= digest);
            assert(p.skip(32) =~= utf8(rendezvous@));
        },
    }
}

/// The leaves of a spine are, in the order of the segments' ids, the hashes of
/// the leaves for the hash of each id with its commitment.
pub proof fn spines_cover_every_segment(c: TextMap<[u8; 32]>, i: int)
    requires
        0 <= i < c.keys().len(),
    ensures
        spine_leaves(c).len() == c.keys().len(),
        spine_leaves(c)[i] == sha256_of(
            seq![1u8] + sha256_of(text_field(c.keys()[i]) + c.values()[i]@),
        ),
        spine_root(c) == root_of(spine_leaves(c)),
{
    let e = sha256_of(text_field(c.keys()[i]) + c.values()[i]@);
    assert(leaf_bytes(e) =~= seq![1u8] + e);
}

/// Whether a witness's head was signed by its operator and is in a master log.
pub open spec fn witnessed(
    root: Seq<u8>,
    item: (SignedTreeHead, PublicKey, InclusionProof),
) -> bool {
    sound_under(item.0.signature@, SigningDomain::TreeHead, item.0.bytes(), item.1@)
        && inclusion_check(item.0.commitment(), item.2, root) is Ok
}

/// The witnessing logs are counted only if every head is witnessed, and are then
/// the logs of the heads, each once.
pub proof fn every_witness_counts_once_or_none_does(
    root: Seq<u8>,
    items: Seq<(SignedTreeHead, PublicKey, InclusionProof)>,
    n: int,
)
    requires
        0 <= n <= items.len(),
    ensures
        witnessing_logs(root, items, n) is Ok <==> forall|i: int|
            0 <= i < n ==> witnessed(root, #[trigger] items[i]),
        witnessing_logs(root, items, n) matches Ok(logs) ==> logs.finite() && forall|id: Seq<char>|
            #[trigger] logs.contains(id) <==> exists|i: int|
                0 <= i < n && (#[trigger] items[i]).0.log_id@ == id,
    decreases n,
{
    if n > 0 {
        every_witness_counts_once_or_none_does(root, items, n - 1);
        let (sth, operator, p) = items[n - 1];
        slots_pass_when_the_key_accepts(
            sth.signature@,
            SigningDomain::TreeHead,
            sth.bytes(),
            operator@,
        );
        if forall|i: int| 0 <= i < n ==> witnessed(root, #[trigger] items[i]) {
            assert(witnessed(root, items[n - 1]));
        }
        if let Ok(logs) = witnessing_logs(root, items, n) {
            assert forall|id: Seq<char>| #[trigger] logs.contains(id) <==> exists|i: int|
                0 <= i < n && (#[trigger] items[i]).0.log_id@ == id by {
                let before = witnessing_logs(root, items, n - 1)->Ok_0;
                if before.contains(id) {
                    let i = choose|i: int|
                        0 <= i < n - 1 && (#[trigger] items[i]).0.log_id@ == id;
                    assert(items[i].0.log_id@ == id);
                }
                if id == sth.log_id@ {
                    assert(items[n - 1].0.log_id@ == id);
                }
            }
        }
    }
}

/// Whether hashes lead from an entry to a root: the first is that of the leaf,
/// each further one is that of the node over the one before it and the sibling on
/// the path, and the last is the root.
pub open spec fn rises(
    entry: Seq<u8>,
    path: Seq<(Seq<u8>, bool)>,
    root: Seq<u8>,
    hashes: Seq<Seq<u8>>,
) -> bool {
    &&& hashes.len() == path.len() + 1
    &&& hashes[0] == sha256_of(seq![1u8] + entry)
    &&& forall|i: int|
        0 <= i < path.len() ==> hashes[i + 1] == sha256_of(
            if (#[trigger] path[i]).1 {
                seq![2u8] + path[i].0 + hashes[i]
            } else {
                seq![2u8] + hashes[i] + path[i].0
            },
        )
    &&& hashes[path.len() as int] == root
}

proof fn lemma_rises(
    entry: Seq<u8>,
    path: Seq<(Seq<u8>, bool)>,
    root: Seq<u8>,
    hashes: Seq<Seq<u8>>,
)
    requires
        rises(entry, path, root, hashes),
    ensures
        root == climb(leaf_of(entry), path),
    decreases path.len(),
{
    if path.len() > 0 {
        let n = path.len() - 1;
        let short = path.drop_last();
        assert forall|i: int| 0 <= i < short.len() implies hashes.drop_last()[i + 1] == sha256_of(
            if (#[trigger] short[i]).1 {
                seq![2u8] + short[i].0 + hashes.drop_last()[i]
            } else {
                seq![2u8] + hashes.drop_last()[i] + short[i].0
            },
        ) by {
            assert(short[i] == path[i]);
        }
        lemma_rises(entry, short, hashes[n], hashes.drop_last());
        assert(path[n] == path.last());
    }
}

proof fn lemma_climbs(entry: Seq<u8>, path: Seq<(Seq<u8>, bool)>) -> (hashes: Seq<Seq<u8>>)
    ensures
        rises(entry, path, climb(leaf_of(entry), path), hashes),
    decreases path.len(),
{
    let root = climb(leaf_of(entry), path);
    if path.len() == 0 {
        seq![root]
    } else {
        let n = path.len() - 1;
        let short = path.drop_last();
        let front = lemma_climbs(entry, short);
        let all = front.push(root);
        assert forall|i: int| 0 <= i < path.len() implies all[i + 1] == sha256_of(
            if (#[trigger] path[i]).1 {
                seq![2u8] + path[i].0 + all[i]
            } else {
                seq![2u8] + all[i] + path[i].0
            },
        ) by {
            if i < n {
                assert(short[i] == path[i]);
            } else {
                assert(path[i] == path.last());
            }
        }
        all
    }
}

/// An inclusion proof holds exactly when it names a leaf of the tree and its path
/// leads from the entry to the root.
pub proof fn inclusion_proofs_lead_to_the_root(
    entry: Seq<u8>,
    proof_: InclusionProof,
    root: Seq<u8>,
)
    ensures
        inclusion_check(entry, proof_, root) is Ok <==> proof_.leaf_index < proof_.tree_size
            && exists|hashes: Seq<Seq<u8>>| #[trigger]
            rises(entry, steps(proof_.path@), root, hashes),
{
    let path = steps(proof_.path@);
    let found = lemma_climbs(entry, path);
    if exists|hashes: Seq<Seq<u8>>| #[trigger] rises(entry, path, root, hashes) {
        let hashes = choose|hashes: Seq<Seq<u8>>| #[trigger] rises(entry, path, root, hashes);
        lemma_rises(entry, path, root, hashes);
    }
    if climb(leaf_of(entry), path) == root {
        assert(rises(entry, path, root, found));
    }
}

/// No proof shows that a log shrank. Between heads of the same size the proof is
/// empty and the roots are equal; from the empty log on it is empty.
pub proof fn logs_do_not_shrink(
    old_size: u64,
    old_root: Seq<u8>,
    new_size: u64,
    new_root: Seq<u8>,
    nodes: Seq<Seq<u8>>,
)
    ensures
        consistency_check(old_size, old_root, new_size, new_root, nodes) is Ok ==> old_size
            <= new_size,
        old_size == new_size ==> (consistency_check(
            old_size,
            old_root,
            new_size,
            new_root,
            nodes,
        ) is Ok <==> nodes.len() == 0 && old_root == new_root),
        0 == old_size < new_size ==> (consistency_check(
            old_size,
            old_root,
            new_size,
            new_root,
            nodes,
        ) is Ok <==> nodes.len() == 0),
{
}

} // verus!
