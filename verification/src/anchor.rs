//! Transparency anchoring: an append-only Merkle log of commitments, inclusion
//! and consistency proofs, signed tree heads, the log of logs with its quorum
//! of witnesses, and anchoring of a tree head in external time.
//!
//! A log anchors commitments, never facts: a leaf is a digest, salted where its
//! content could be guessed, and at most a reference to the salt.

use vstd::bytes::{spec_u32_to_le_bytes, spec_u64_to_le_bytes};
use vstd::prelude::*;

use crate::bytes::{append, joined, same_bytes, utf8};
use crate::canon::{i64_bytes, text_field, CanonicalWriter};
use crate::digest::{sha256, sha256_of, Hash32};
use crate::keyring::{KeyPair, PublicKey};
use crate::maps::TextMap;
use crate::merkle::{
    climb, climb_bytes, collide, inner_of, is_power_of_two, leaf_bytes, leaf_of, path_of,
    prefix_proof, reconstruct, right_steps, root_of, split_from, split_is_the_power_of_two_below,
    split_of, Step,
};
use crate::sets::StringSet;
use crate::sign::{signing_error, SignatureSlot, SigningDomain};
use crate::text::{cat3, cat4, cat5, cat6, cat7, count, decimal, hex_text, number};
use crate::time::Timestamp;
use crate::{ErrorView, SignatifError};

verus! {

/// The hash of a leaf.
pub fn leaf_hash(entry: &Hash32) -> (r: Hash32)
    ensures
        r@ == leaf_of(entry@),
{
    let mut data: Vec<u8> = Vec::new();
    data.push(1);
    append(&mut data, entry.0.as_slice());
    assert(data@ =~= seq![1u8] + entry@);
    sha256(data.as_slice())
}

/// The hash of an inner node.
pub fn node_hash(left: &Hash32, right: &Hash32) -> (r: Hash32)
    ensures
        r@ == inner_of(left@, right@),
{
    let mut data: Vec<u8> = Vec::new();
    data.push(2);
    append(&mut data, left.0.as_slice());
    append(&mut data, right.0.as_slice());
    assert(data@ =~= seq![2u8] + left@ + right@);
    sha256(data.as_slice())
}

/// The largest power of two below `n`.
pub fn split(n: u64) -> (r: u64)
    requires
        2 <= n,
    ensures
        r == split_of(n as int),
        is_power_of_two(r as int),
        r < n <= 2 * r,
{
    let mut k: u64 = 1;
    while k < n - k
        invariant
            1 <= k < n,
            split_from(k as int, n as int) == split_of(n as int),
        decreases n - k,
    {
        k = k + k;
    }
    proof {
        split_is_the_power_of_two_below(n as int);
    }
    k
}

/// The commitment to a fact under a salt.
pub fn salted_commitment(fact_ref: &[u8], salt: &[u8; 32]) -> (r: Hash32)
    ensures
        r@ == sha256_of(salt@ + fact_ref@),
{
    let data = joined(salt.as_slice(), fact_ref);
    sha256(data.as_slice())
}

/// On which side of a hash a sibling stands.
#[derive(Debug, Clone, Copy, PartialEq, Eq, Structural)]
pub enum Side {
    /// The sibling is the left operand.
    Left,
    /// The sibling is the right operand.
    Right,
}

/// One step of an inclusion proof.
#[derive(Debug, Clone, Copy, PartialEq, Eq)]
pub struct ProofNode {
    /// The sibling.
    pub sibling: Hash32,
    /// Its side.
    pub side: Side,
}

impl View for ProofNode {
    type V = Step;

    open spec fn view(&self) -> Step {
        (self.sibling@, self.side == Side::Left)
    }
}

/// The steps of a list as mathematical values.
pub open spec fn steps(s: Seq<ProofNode>) -> Seq<Step> {
    s.map_values(|n: ProofNode| n@)
}

/// The hashes of a list as byte strings.
pub open spec fn hashes(s: Seq<Hash32>) -> Seq<Seq<u8>> {
    s.map_values(|h: Hash32| h@)
}

/// A proof that a leaf is in a tree.
#[derive(Debug, Clone, PartialEq, Eq)]
pub struct InclusionProof {
    /// The position of the leaf.
    pub leaf_index: u64,
    /// The number of leaves of the tree.
    pub tree_size: u64,
    /// The siblings from the leaf up.
    pub path: Vec<ProofNode>,
}

/// A proof that a tree extends a prefix.
#[derive(Debug, Clone, PartialEq, Eq)]
pub struct ConsistencyProof {
    /// The number of leaves of the prefix.
    pub old_size: u64,
    /// The number of leaves of the tree.
    pub new_size: u64,
    /// The nodes, deepest first.
    pub path: Vec<Hash32>,
}

/// An entry of the log.
#[derive(Debug, Clone, Copy, PartialEq, Eq)]
pub struct LogEntry {
    /// The commitment.
    pub commitment: Hash32,
    /// The owner's reference to the salt, if the commitment is salted.
    pub salt_ref: Option<u64>,
}

impl LogEntry {
    /// An entry without salt.
    pub fn public(commitment: Hash32) -> (r: LogEntry)
        ensures
            r == (LogEntry { commitment, salt_ref: None }),
    {
        LogEntry { commitment, salt_ref: None }
    }

    /// An entry with a salt.
    pub fn salted(commitment: Hash32, salt_ref: u64) -> (r: LogEntry)
        ensures
            r == (LogEntry { commitment, salt_ref: Some(salt_ref) }),
    {
        LogEntry { commitment, salt_ref: Some(salt_ref) }
    }
}

fn subtree(leaves: &[Hash32], from: usize, to: usize) -> (r: &[Hash32])
    requires
        from <= to <= leaves@.len(),
    ensures
        r@ == leaves@.subrange(from as int, to as int),
        hashes(r@) == hashes(leaves@).subrange(from as int, to as int),
{
    let r = vstd::slice::slice_subrange(leaves, from, to);
    assert(hashes(r@) =~= hashes(leaves@).subrange(from as int, to as int));
    r
}

/// The root of the tree over leaf hashes.
fn root_hash(leaves: &[Hash32]) -> (r: Hash32)
    requires
        leaves@.len() > 0,
    ensures
        r@ == root_of(hashes(leaves@)),
    decreases leaves@.len(),
{
    let n = leaves.len();
    if n == 1 {
        return leaves[0];
    }
    let k = split(n as u64) as usize;
    let left = root_hash(subtree(leaves, 0, k));
    let right = root_hash(subtree(leaves, k, n));
    proof {
        let h = hashes(leaves@);
        assert(h.subrange(0, k as int) =~= h.take(k as int));
        assert(h.subrange(k as int, n as int) =~= h.skip(k as int));
    }
    node_hash(&left, &right)
}

/// The root of the tree over leaf hashes, if there is any leaf.
pub fn mth(leaves: &[Hash32]) -> (r: Option<Hash32>)
    ensures
        r is Some == (leaves@.len() > 0),
        r matches Some(h) ==> h@ == root_of(hashes(leaves@)),
{
    if leaves.len() == 0 {
        None
    } else {
        Some(root_hash(leaves))
    }
}

/// Appends the siblings from the leaf at a position up to the root.
pub fn path_recursive(m: u64, leaves: &[Hash32], path: &mut Vec<ProofNode>)
    requires
        m < leaves@.len(),
    ensures
        steps(final(path)@) == steps(old(path)@) + path_of(m as int, hashes(leaves@)),
    decreases leaves@.len(),
{
    let n = leaves.len();
    if n == 1 {
        assert(steps(path@) + Seq::<Step>::empty() =~= steps(path@));
        return;
    }
    let k = split(n as u64);
    let cut = k as usize;
    let ghost h = hashes(leaves@);
    let ghost start = steps(path@);
    proof {
        assert(h.subrange(0, k as int) =~= h.take(k as int));
        assert(h.subrange(k as int, n as int) =~= h.skip(k as int));
    }
    let node = if m < k {
        path_recursive(m, subtree(leaves, 0, cut), path);
        ProofNode { sibling: root_hash(subtree(leaves, cut, n)), side: Side::Right }
    } else {
        path_recursive(m - k, subtree(leaves, cut, n), path);
        ProofNode { sibling: root_hash(subtree(leaves, 0, cut)), side: Side::Left }
    };
    let ghost before = steps(path@);
    path.push(node);
    assert(steps(path@) =~= before.push(node@));
    assert(steps(path@) =~= start + path_of(m as int, h));
}

/// Appends the nodes that show that the first `m` leaves are a prefix.
pub fn sub_proof(m: u64, leaves: &[Hash32], anchored: bool, path: &mut Vec<Hash32>)
    requires
        0 < m <= leaves@.len(),
    ensures
        hashes(final(path)@) == hashes(old(path)@) + prefix_proof(
            m as int,
            hashes(leaves@),
            anchored,
        ),
    decreases leaves@.len(),
{
    let n = leaves.len();
    let ghost h = hashes(leaves@);
    let ghost start = hashes(path@);
    if m == n as u64 {
        if !anchored {
            let root = root_hash(leaves);
            path.push(root);
            assert(hashes(path@) =~= start.push(root@));
        }
        assert(hashes(path@) =~= start + prefix_proof(m as int, h, anchored));
        return;
    }
    let k = split(n as u64);
    let cut = k as usize;
    proof {
        assert(h.subrange(0, k as int) =~= h.take(k as int));
        assert(h.subrange(k as int, n as int) =~= h.skip(k as int));
    }
    let node = if m <= k {
        sub_proof(m, subtree(leaves, 0, cut), anchored, path);
        root_hash(subtree(leaves, cut, n))
    } else {
        sub_proof(m - k, subtree(leaves, cut, n), false, path);
        root_hash(subtree(leaves, 0, cut))
    };
    let ghost before = hashes(path@);
    path.push(node);
    assert(hashes(path@) =~= before.push(node@));
    assert(hashes(path@) =~= start + prefix_proof(m as int, h, anchored));
}

/// An append-only log of commitments.
#[derive(Debug, Clone, PartialEq, Eq)]
pub struct TransparencyLog {
    /// The id of the log.
    pub log_id: String,
    entries: Vec<LogEntry>,
}

/// The leaf hashes of entries.
pub open spec fn leaves_of(entries: Seq<LogEntry>) -> Seq<Seq<u8>> {
    entries.map_values(|e: LogEntry| leaf_of(e.commitment@))
}

/// The bytes that a tree head's signature covers.
pub open spec fn tree_head_bytes(
    log_id: Seq<char>,
    tree_size: u64,
    at: Timestamp,
    root: Seq<u8>,
) -> Seq<u8> {
    text_field(log_id) + spec_u64_to_le_bytes(tree_size) + i64_bytes(at.secs)
        + spec_u32_to_le_bytes(at.nanos) + root
}

/// The error of asking for an entry that is not there.
pub open spec fn no_entry_error(log_id: Seq<char>, seq: u64) -> ErrorView {
    ErrorView::Transparency("log `"@ + log_id + "` has no entry "@ + decimal(seq as nat))
}

/// The error of asking for the root of a prefix that has no root.
pub open spec fn prefix_error(log_id: Seq<char>, len: nat, size: u64) -> ErrorView {
    if size > len {
        ErrorView::Transparency(
            "log `"@ + log_id + "` has only "@ + decimal(len) + " entries, not "@ + decimal(
                size as nat,
            ),
        )
    } else {
        ErrorView::Transparency("root of an empty prefix is undefined"@)
    }
}

impl TransparencyLog {
    /// The id of the log.
    pub closed spec fn spec_log_id(self) -> Seq<char> {
        self.log_id@
    }

    /// The entries.
    pub closed spec fn spec_entries(self) -> Seq<LogEntry> {
        self.entries@
    }

    /// The leaf hashes.
    pub open spec fn leaves(self) -> Seq<Seq<u8>> {
        leaves_of(self.spec_entries())
    }

    /// The root of the first `size` leaves.
    pub open spec fn prefix_root(self, size: int) -> Seq<u8> {
        root_of(self.leaves().take(size))
    }

    /// An empty log.
    pub fn new(log_id: &str) -> (r: TransparencyLog)
        ensures
            r.spec_log_id() == log_id@,
            r.spec_entries() == Seq::<LogEntry>::empty(),
    {
        TransparencyLog { log_id: log_id.to_owned(), entries: Vec::new() }
    }

    /// Appends an entry and gives its sequence number.
    pub fn append(&mut self, entry: LogEntry) -> (r: u64)
        ensures
            r == old(self).spec_entries().len(),
            final(self).spec_entries() == old(self).spec_entries().push(entry),
            final(self).spec_log_id() == old(self).spec_log_id(),
    {
        self.entries.push(entry);
        (self.entries.len() - 1) as u64
    }

    /// The number of entries.
    pub fn len(&self) -> (r: usize)
        ensures
            r == self.spec_entries().len(),
    {
        self.entries.len()
    }

    /// Whether there are no entries.
    pub fn is_empty(&self) -> (r: bool)
        ensures
            r == (self.spec_entries().len() == 0),
    {
        self.entries.len() == 0
    }

    /// The entry with a sequence number.
    pub fn entry(&self, seq: u64) -> (r: Result<&LogEntry, SignatifError>)
        ensures
            r is Ok == (seq < self.spec_entries().len()),
            r matches Ok(e) ==> *e == self.spec_entries()[seq as int],
            r matches Err(e) ==> e@ == no_entry_error(self.spec_log_id(), seq),
    {
        if seq < self.entries.len() as u64 {
            Ok(&self.entries[seq as usize])
        } else {
            let n = number(seq);
            Err(
                SignatifError::Transparency(
                    cat4("log `", self.log_id.as_str(), "` has no entry ", n.as_str()),
                ),
            )
        }
    }

    fn leaf_hashes(&self) -> (r: Vec<Hash32>)
        ensures
            hashes(r@) == self.leaves(),
    {
        let ghost want = self.leaves();
        let mut out: Vec<Hash32> = Vec::new();
        let mut i: usize = 0;
        while i < self.entries.len()
            invariant
                i <= self.entries.len(),
                want == leaves_of(self.entries@),
                hashes(out@) =~= want.take(i as int),
            decreases self.entries.len() - i,
        {
            let ghost before = hashes(out@);
            let h = leaf_hash(&self.entries[i].commitment);
            out.push(h);
            assert(hashes(out@) =~= before.push(h@));
            assert(want[i as int] == h@);
            i += 1;
        }
        out
    }

    /// The root of the tree; `None` for an empty log.
    pub fn root(&self) -> (r: Option<Hash32>)
        ensures
            r is Some == (self.spec_entries().len() > 0),
            r matches Some(h) ==> h@ == root_of(self.leaves()),
    {
        let leaves = self.leaf_hashes();
        assert(leaves@.len() == hashes(leaves@).len());
        mth(leaves.as_slice())
    }

    /// The root of the first `size` leaves.
    pub fn root_at_size(&self, size: u64) -> (r: Result<Hash32, SignatifError>)
        ensures
            r is Ok == (0 < size <= self.spec_entries().len()),
            r matches Ok(h) ==> h@ == self.prefix_root(size as int),
            r matches Err(e) ==> e@ == prefix_error(
                self.spec_log_id(),
                self.spec_entries().len(),
                size,
            ),
    {
        if size > self.entries.len() as u64 {
            let have = count(self.entries.len());
            let want = number(size);
            return Err(
                SignatifError::Transparency(
                    cat6(
                        "log `",
                        self.log_id.as_str(),
                        "` has only ",
                        have.as_str(),
                        " entries, not ",
                        want.as_str(),
                    ),
                ),
            );
        }
        if size == 0 {
            return Err(
                SignatifError::Transparency("root of an empty prefix is undefined".to_owned()),
            );
        }
        let leaves = self.leaf_hashes();
        assert(leaves@.len() == hashes(leaves@).len());
        assert(self.leaves().take(size as int) =~= self.leaves().subrange(0, size as int));
        Ok(root_hash(subtree(leaves.as_slice(), 0, size as usize)))
    }

    /// The inclusion proof of an entry in the tree.
    pub fn inclusion_proof(&self, seq: u64) -> (r: Result<InclusionProof, SignatifError>)
        ensures
            r is Ok == (seq < self.spec_entries().len()),
            r matches Ok(p) ==> p.leaf_index == seq && p.tree_size == self.spec_entries().len()
                && steps(p.path@) == path_of(seq as int, self.leaves()),
            r matches Err(e) ==> e@ == ErrorView::Transparency(
                "cannot prove inclusion of "@ + decimal(seq as nat) + " in log `"@ + self.spec_log_id()
                    + "` of size "@ + decimal(self.spec_entries().len()),
            ),
    {
        let n = self.entries.len() as u64;
        if seq >= n {
            let s = number(seq);
            let size = number(n);
            return Err(
                SignatifError::Transparency(
                    cat6(
                        "cannot prove inclusion of ",
                        s.as_str(),
                        " in log `",
                        self.log_id.as_str(),
                        "` of size ",
                        size.as_str(),
                    ),
                ),
            );
        }
        let leaves = self.leaf_hashes();
        assert(leaves@.len() == hashes(leaves@).len());
        let mut path: Vec<ProofNode> = Vec::new();
        assert(steps(path@) =~= Seq::<Step>::empty());
        path_recursive(seq, leaves.as_slice(), &mut path);
        assert(steps(path@) =~= path_of(seq as int, self.leaves()));
        Ok(InclusionProof { leaf_index: seq, tree_size: n, path })
    }

    /// The consistency proof from the first `old_size` leaves to the tree.
    pub fn consistency_proof(&self, old_size: u64) -> (r: Result<ConsistencyProof, SignatifError>)
        ensures
            r is Ok == (old_size <= self.spec_entries().len()),
            r matches Ok(p) ==> p.old_size == old_size && p.new_size == self.spec_entries().len()
                && hashes(p.path@) == (if old_size == 0 {
                Seq::<Seq<u8>>::empty()
            } else {
                prefix_proof(old_size as int, self.leaves(), true)
            }),
            r matches Err(e) ==> e@ == ErrorView::Transparency(
                "consistency proof backwards ("@ + decimal(old_size as nat) + " > "@ + decimal(
                    self.spec_entries().len(),
                ) + ") is impossible"@,
            ),
    {
        let new_size = self.entries.len() as u64;
        if old_size > new_size {
            let a = number(old_size);
            let b = number(new_size);
            return Err(
                SignatifError::Transparency(
                    cat5(
                        "consistency proof backwards (",
                        a.as_str(),
                        " > ",
                        b.as_str(),
                        ") is impossible",
                    ),
                ),
            );
        }
        let leaves = self.leaf_hashes();
        assert(leaves@.len() == hashes(leaves@).len());
        let mut path: Vec<Hash32> = Vec::new();
        assert(hashes(path@) =~= Seq::<Seq<u8>>::empty());
        if old_size > 0 {
            sub_proof(old_size, leaves.as_slice(), true, &mut path);
            assert(hashes(path@) =~= prefix_proof(old_size as int, self.leaves(), true));
        }
        Ok(ConsistencyProof { old_size, new_size, path })
    }

    /// Signs the head of the tree.
    pub fn sign_tree_head(&self, at: Timestamp, operator_key: &KeyPair) -> (r: Result<
        SignedTreeHead,
        SignatifError,
    >)
        ensures
            r is Ok == (self.spec_entries().len() > 0 && operator_key.slot(
                SigningDomain::TreeHead,
                tree_head_bytes(
                    self.spec_log_id(),
                    self.spec_entries().len() as u64,
                    at,
                    root_of(self.leaves()),
                ),
            ) is Some),
            r matches Ok(h) ==> h.log_id@ == self.spec_log_id() && h.tree_size
                == self.spec_entries().len() && h.timestamp == at && h.root@ == root_of(
                self.leaves(),
            ) && h.check(operator_key.spec_public()) == Ok::<(), ErrorView>(()) && Some(
                h.signature@,
            ) == operator_key.slot(SigningDomain::TreeHead, h.bytes()),
            r matches Err(e) ==> e@ == (if self.spec_entries().len() == 0 {
                ErrorView::Transparency("cannot sign an empty tree head"@)
            } else {
                signing_error()
            }),
    {
        let root = match self.root() {
            None => {
                return Err(
                    SignatifError::Transparency("cannot sign an empty tree head".to_owned()),
                );
            },
            Some(h) => h,
        };
        let tree_size = self.entries.len() as u64;
        let bytes = SignedTreeHead::canonical_bytes(self.log_id.as_str(), tree_size, at, &root);
        match SignatureSlot::sign(operator_key, SigningDomain::TreeHead, bytes.as_slice()) {
            Err(e) => Err(e),
            Ok(signature) => Ok(
                SignedTreeHead {
                    log_id: self.log_id.clone(),
                    tree_size,
                    timestamp: at,
                    root,
                    signature,
                },
            ),
        }
    }

    /// Replaces the commitment of an entry, as a dishonest operator would.
    pub fn entries_tamper_for_test(&mut self, seq: u64, commitment: Hash32)
        ensures
            final(self).spec_log_id() == old(self).spec_log_id(),
            final(self).spec_entries() == (if seq < old(self).spec_entries().len() {
                old(self).spec_entries().update(
                    seq as int,
                    LogEntry { commitment, ..old(self).spec_entries()[seq as int] },
                )
            } else {
                old(self).spec_entries()
            }),
    {
        if seq < self.entries.len() as u64 {
            let i = seq as usize;
            let entry = LogEntry { commitment, salt_ref: self.entries[i].salt_ref };
            self.entries.set(i, entry);
        }
    }

    /// Drops the last entry, as a dishonest operator would.
    pub fn truncate_for_test(&mut self) -> (r: bool)
        ensures
            final(self).spec_log_id() == old(self).spec_log_id(),
            r == (old(self).spec_entries().len() > 0),
            final(self).spec_entries() == (if r {
                old(self).spec_entries().drop_last()
            } else {
                old(self).spec_entries()
            }),
    {
        let r = self.entries.pop().is_some();
        assert(r ==> self.entries@ =~= old(self).entries@.drop_last());
        r
    }

    /// Checks that the prefix of a signed head's size still has the head's
    /// root.
    pub fn verify_size_against(&self, sth: &SignedTreeHead) -> (r: Result<(), SignatifError>)
        ensures
            r is Ok == (0 < sth.tree_size <= self.spec_entries().len() && self.prefix_root(
                sth.tree_size as int,
            ) == sth.root@),
            r matches Err(e) ==> e@ == (if 0 < sth.tree_size <= self.spec_entries().len() {
                ErrorView::Transparency(
                    "log `"@ + self.spec_log_id() + "` prefix of "@ + decimal(sth.tree_size as nat)
                        + " hashes to "@ + hex_text(self.prefix_root(sth.tree_size as int))
                        + ", STH pins "@ + hex_text(sth.root@),
                )
            } else {
                prefix_error(self.spec_log_id(), self.spec_entries().len(), sth.tree_size)
            }),
    {
        let actual = match self.root_at_size(sth.tree_size) {
            Err(e) => {
                return Err(e);
            },
            Ok(h) => h,
        };
        if actual.same(&sth.root) {
            Ok(())
        } else {
            let size = number(sth.tree_size);
            let have = actual.hex();
            let pins = sth.root.hex();
            let mut text = cat7(
                "log `",
                self.log_id.as_str(),
                "` prefix of ",
                size.as_str(),
                " hashes to ",
                have.as_str(),
                ", STH pins ",
            );
            text.push_str(pins.as_str());
            Err(SignatifError::Transparency(text))
        }
    }
}

/// Appending leaves the root of every prefix as it was: a head that was signed
/// once stays valid for its prefix.
pub proof fn appending_keeps_prefix_roots(
    entries: Seq<LogEntry>,
    entry: LogEntry,
    size: int,
)
    requires
        0 <= size <= entries.len(),
    ensures
        root_of(leaves_of(entries.push(entry)).take(size)) == root_of(leaves_of(entries).take(size)),
{
    assert(leaves_of(entries.push(entry)).take(size) =~= leaves_of(entries).take(size));
}

/// The operator's signed statement of the size and root of a tree.
#[derive(Debug, PartialEq, Eq)]
pub struct SignedTreeHead {
    /// The id of the log.
    pub log_id: String,
    /// The number of leaves.
    pub tree_size: u64,
    /// When it was signed.
    pub timestamp: Timestamp,
    /// The root.
    pub root: Hash32,
    /// The operator's signature.
    pub signature: SignatureSlot,
}

/// The tag in front of a witness commitment.
pub const WITNESS_STH_TAG: &'static str = "UNIDPP-SIGNATIF/WITNESS-STH";

impl Clone for SignedTreeHead {
    fn clone(&self) -> (r: SignedTreeHead)
        ensures
            r.log_id@ == self.log_id@,
            r.tree_size == self.tree_size,
            r.timestamp == self.timestamp,
            r.root == self.root,
            r.signature@ == self.signature@,
    {
        SignedTreeHead {
            log_id: self.log_id.clone(),
            tree_size: self.tree_size,
            timestamp: self.timestamp,
            root: self.root,
            signature: self.signature.clone(),
        }
    }
}

impl SignedTreeHead {
    /// The bytes that the signature covers.
    pub open spec fn bytes(self) -> Seq<u8> {
        tree_head_bytes(self.log_id@, self.tree_size, self.timestamp, self.root@)
    }

    /// What checking the signature under the operator's key gives.
    pub open spec fn check(self, operator: crate::keyring::KeyView) -> Result<(), ErrorView> {
        self.signature@.check(SigningDomain::TreeHead, self.bytes(), operator)
    }

    /// The commitment to this head in a log of logs.
    pub open spec fn commitment(self) -> Seq<u8> {
        sha256_of(
            utf8(WITNESS_STH_TAG@) + (text_field(self.log_id@) + spec_u64_to_le_bytes(
                self.tree_size,
            ) + self.root@),
        )
    }

    /// The bytes that a tree head's signature covers.
    pub fn canonical_bytes(
        log_id: &str,
        tree_size: u64,
        timestamp: Timestamp,
        root: &Hash32,
    ) -> (r: Vec<u8>)
        ensures
            r@ == tree_head_bytes(log_id@, tree_size, timestamp, root@),
    {
        let mut w = CanonicalWriter::new();
        w.write_str(log_id);
        w.write_u64(tree_size);
        w.write_i64(timestamp.secs);
        w.write_u32(timestamp.nanos);
        w.write_hash(root);
        assert(w@ =~= tree_head_bytes(log_id@, tree_size, timestamp, root@));
        w.into_bytes()
    }

    /// Checks the operator's signature.
    pub fn verify(&self, operator: &PublicKey) -> (r: Result<(), SignatifError>)
        ensures
            crate::outcome(r) == self.check(operator@),
    {
        let bytes = SignedTreeHead::canonical_bytes(
            self.log_id.as_str(),
            self.tree_size,
            self.timestamp,
            &self.root,
        );
        self.signature.verify(SigningDomain::TreeHead, bytes.as_slice(), operator)
    }

    /// The commitment to this head in a log of logs.
    pub fn lol_commitment(&self) -> (r: Hash32)
        ensures
            r@ == self.commitment(),
    {
        let mut w = CanonicalWriter::new();
        w.write_str(self.log_id.as_str());
        w.write_u64(self.tree_size);
        w.write_hash(&self.root);
        let ghost inner = text_field(self.log_id@) + spec_u64_to_le_bytes(self.tree_size)
            + self.root@;
        assert(w@ =~= inner);
        let bytes = w.into_bytes();
        let data = joined(WITNESS_STH_TAG.as_bytes(), bytes.as_slice());
        sha256(data.as_slice())
    }
}

/// What checking an inclusion proof gives.
pub open spec fn inclusion_check(
    entry: Seq<u8>,
    proof_: InclusionProof,
    root: Seq<u8>,
) -> Result<(), ErrorView> {
    if proof_.leaf_index >= proof_.tree_size {
        Err(
            ErrorView::Transparency(
                "proof claims leaf "@ + decimal(proof_.leaf_index as nat) + " in a tree of "@
                    + decimal(proof_.tree_size as nat),
            ),
        )
    } else if climb(leaf_of(entry), steps(proof_.path@)) == root {
        Ok(())
    } else {
        Err(
            ErrorView::Transparency(
                "inclusion proof reconstructs "@ + hex_text(
                    climb(leaf_of(entry), steps(proof_.path@)),
                ) + ", not the pinned root "@ + hex_text(root),
            ),
        )
    }
}

/// Checks an inclusion proof: the path must lead from the entry to the root.
pub fn verify_inclusion(entry: &Hash32, proof_: &InclusionProof, root: &Hash32) -> (r: Result<
    (),
    SignatifError,
>)
    ensures
        crate::outcome(r) == inclusion_check(entry@, *proof_, root@),
{
    if proof_.leaf_index >= proof_.tree_size {
        let i = number(proof_.leaf_index);
        let n = number(proof_.tree_size);
        return Err(
            SignatifError::Transparency(
                cat4("proof claims leaf ", i.as_str(), " in a tree of ", n.as_str()),
            ),
        );
    }
    let mut current = leaf_hash(entry);
    let ghost all = steps(proof_.path@);
    let mut i: usize = 0;
    assert(all.take(0) =~= Seq::<Step>::empty());
    while i < proof_.path.len()
        invariant
            i <= proof_.path.len(),
            all == steps(proof_.path@),
            current@ == climb(leaf_of(entry@), all.take(i as int)),
        decreases proof_.path.len() - i,
    {
        proof {
            assert(all.take(i + 1).drop_last() =~= all.take(i as int));
            assert(all.take(i + 1).last() == proof_.path@[i as int]@);
        }
        let node = proof_.path[i];
        current = match node.side {
            Side::Left => node_hash(&node.sibling, &current),
            Side::Right => node_hash(&current, &node.sibling),
        };
        i += 1;
    }
    assert(all.take(i as int) =~= all);
    if current.same(root) {
        Ok(())
    } else {
        let have = current.hex();
        let want = root.hex();
        Err(
            SignatifError::Transparency(
                cat4(
                    "inclusion proof reconstructs ",
                    have.as_str(),
                    ", not the pinned root ",
                    want.as_str(),
                ),
            ),
        )
    }
}

/// The inclusion proof that a log gives out for an entry verifies against the
/// log's root.
pub proof fn inclusion_proofs_verify(
    entries: Seq<LogEntry>,
    seq: int,
    proof_: InclusionProof,
)
    requires
        0 <= seq < entries.len(),
        entries.len() <= u64::MAX,
        proof_.leaf_index == seq,
        proof_.tree_size == entries.len(),
        steps(proof_.path@) == path_of(seq, leaves_of(entries)),
    ensures
        inclusion_check(entries[seq].commitment@, proof_, root_of(leaves_of(entries))) is Ok,
{
    crate::merkle::inclusion_paths_lead_to_the_root(seq, leaves_of(entries));
}

/// The bytes that checking an inclusion proof hashes, one after the other:
/// first those of the leaf, then those of each step of the path.
pub open spec fn inclusion_bytes(entry: Seq<u8>, proof_: InclusionProof, i: int) -> Seq<u8> {
    if i == 0 {
        leaf_bytes(entry)
    } else {
        climb_bytes(leaf_of(entry), steps(proof_.path@), i - 1)
    }
}

/// An inclusion proof stands for one entry and one root: another root is
/// refused, and a second entry is accepted only by a collision among the bytes
/// that the two checks hash at one place.
pub proof fn inclusion_proofs_bind_the_entry(
    a: Seq<u8>,
    b: Seq<u8>,
    proof_: InclusionProof,
    root: Seq<u8>,
    other: Seq<u8>,
)
    requires
        inclusion_check(a, proof_, root) is Ok,
    ensures
        other != root ==> inclusion_check(a, proof_, other) is Err,
        a != b && inclusion_check(b, proof_, root) is Ok ==> exists|i: int|
            0 <= i <= proof_.path@.len() && collide(
                #[trigger] inclusion_bytes(a, proof_, i),
                inclusion_bytes(b, proof_, i),
            ),
{
    if a != b && inclusion_check(b, proof_, root) is Ok {
        let path = steps(proof_.path@);
        if leaf_of(a) == leaf_of(b) {
            assert(a =~= leaf_bytes(a).skip(1));
            assert(b =~= leaf_bytes(b).skip(1));
            assert(collide(inclusion_bytes(a, proof_, 0), inclusion_bytes(b, proof_, 0)));
        } else {
            crate::merkle::paths_keep_hashes_apart(leaf_of(a), leaf_of(b), path);
            let i = choose|i: int|
                0 <= i < path.len() && collide(
                    #[trigger] climb_bytes(leaf_of(a), path, i),
                    climb_bytes(leaf_of(b), path, i),
                );
            assert(collide(
                inclusion_bytes(a, proof_, i + 1),
                inclusion_bytes(b, proof_, i + 1),
            ));
        }
    }
}

/// What checking a consistency proof gives.
pub open spec fn consistency_check(
    old_size: u64,
    old_root: Seq<u8>,
    new_size: u64,
    new_root: Seq<u8>,
    nodes: Seq<Seq<u8>>,
) -> Result<(), ErrorView> {
    if old_size > new_size {
        Err(
            ErrorView::Transparency(
                "cannot verify consistency "@ + decimal(old_size as nat) + " -> "@ + decimal(
                    new_size as nat,
                ) + " (shrinking)"@,
            ),
        )
    } else if old_size == new_size {
        if nodes.len() > 0 {
            Err(ErrorView::Transparency("consistency proof for equal sizes must be empty"@))
        } else if old_root != new_root {
            Err(ErrorView::Transparency("equal sizes must have equal roots"@))
        } else {
            Ok(())
        }
    } else if old_size == 0 {
        if nodes.len() > 0 {
            Err(
                ErrorView::Transparency(
                    "consistency proof from the empty prefix must be empty"@,
                ),
            )
        } else {
            Ok(())
        }
    } else {
        match reconstruct(old_size as int, new_size as int, nodes, Some(old_root)) {
            None => Err(ErrorView::Transparency("consistency proof is truncated"@)),
            Some((o, w, rest)) => if rest.len() > 0 {
                Err(
                    ErrorView::Transparency(
                        "consistency proof has "@ + decimal(rest.len()) + " leftover nodes"@,
                    ),
                )
            } else if o != old_root {
                Err(
                    ErrorView::Transparency(
                        "consistency proof reconstructs prefix root "@ + hex_text(o) + ", not "@
                            + hex_text(old_root),
                    ),
                )
            } else if w != new_root {
                Err(
                    ErrorView::Transparency(
                        "consistency proof reconstructs root "@ + hex_text(w) + ", not "@
                            + hex_text(new_root),
                    ),
                )
            } else {
                Ok(())
            },
        }
    }
}

/// Checks a consistency proof: the nodes must reconstruct both the root of the
/// first `old_size` leaves and the root of the tree.
pub fn verify_consistency(
    old_size: u64,
    old_root: &Hash32,
    new_size: u64,
    new_root: &Hash32,
    nodes: &[Hash32],
) -> (r: Result<(), SignatifError>)
    ensures
        crate::outcome(r) == consistency_check(
            old_size,
            old_root@,
            new_size,
            new_root@,
            hashes(nodes@),
        ),
{
    assert(hashes(nodes@).len() == nodes@.len());
    if old_size > new_size {
        let a = number(old_size);
        let b = number(new_size);
        return Err(
            SignatifError::Transparency(
                cat5(
                    "cannot verify consistency ",
                    a.as_str(),
                    " -> ",
                    b.as_str(),
                    " (shrinking)",
                ),
            ),
        );
    }
    if old_size == new_size {
        if nodes.len() > 0 {
            return Err(
                SignatifError::Transparency(
                    "consistency proof for equal sizes must be empty".to_owned(),
                ),
            );
        }
        if !old_root.same(new_root) {
            return Err(
                SignatifError::Transparency("equal sizes must have equal roots".to_owned()),
            );
        }
        return Ok(());
    }
    if old_size == 0 {
        if nodes.len() > 0 {
            return Err(
                SignatifError::Transparency(
                    "consistency proof from the empty prefix must be empty".to_owned(),
                ),
            );
        }
        return Ok(());
    }
    assert(hashes(nodes@).skip(0) =~= hashes(nodes@));
    let (computed_old, computed_new, idx) = match sub_verify(
        old_size,
        new_size,
        nodes,
        0,
        Some(*old_root),
    ) {
        None => {
            return Err(SignatifError::Transparency("consistency proof is truncated".to_owned()));
        },
        Some(x) => x,
    };
    if idx != nodes.len() {
        let left = count(nodes.len() - idx);
        return Err(
            SignatifError::Transparency(
                cat3("consistency proof has ", left.as_str(), " leftover nodes"),
            ),
        );
    }
    if !computed_old.same(old_root) {
        let have = computed_old.hex();
        let want = old_root.hex();
        return Err(
            SignatifError::Transparency(
                cat4(
                    "consistency proof reconstructs prefix root ",
                    have.as_str(),
                    ", not ",
                    want.as_str(),
                ),
            ),
        );
    }
    if !computed_new.same(new_root) {
        let have = computed_new.hex();
        let want = new_root.hex();
        return Err(
            SignatifError::Transparency(
                cat4(
                    "consistency proof reconstructs root ",
                    have.as_str(),
                    ", not ",
                    want.as_str(),
                ),
            ),
        );
    }
    Ok(())
}

/// Reconstructs the roots of a prefix and of the tree from the nodes at a
/// position on; gives the position behind the nodes used.
fn sub_verify(m: u64, n: u64, nodes: &[Hash32], idx: usize, known: Option<Hash32>) -> (r: Option<
    (Hash32, Hash32, usize),
>)
    requires
        0 < m <= n,
        idx <= nodes@.len(),
    ensures
        match reconstruct(
            m as int,
            n as int,
            hashes(nodes@).skip(idx as int),
            match known {
                Some(h) => Some(h@),
                None => None,
            },
        ) {
            None => r is None,
            Some((o, w, rest)) => r matches Some(x) && x.0@ == o && x.1@ == w && x.2
                <= nodes@.len() && rest == hashes(nodes@).skip(x.2 as int),
        },
    decreases n,
{
    let ghost all = hashes(nodes@);
    let ghost view = match known {
        Some(h) => Some(h@),
        None => None,
    };
    if m == n {
        return match known {
            Some(h) => Some((h, h, idx)),
            None => if idx < nodes.len() {
                assert(all.skip(idx as int).skip(1) =~= all.skip(idx + 1));
                assert(all.skip(idx as int)[0] == nodes@[idx as int]@);
                Some((nodes[idx], nodes[idx], idx + 1))
            } else {
                None
            },
        };
    }
    let k = split(n);
    if m <= k {
        match sub_verify(m, k, nodes, idx, known) {
            None => None,
            Some((o, w, i)) => if i < nodes.len() {
                assert(all.skip(i as int).skip(1) =~= all.skip(i + 1));
                assert(all.skip(i as int)[0] == nodes@[i as int]@);
                Some((o, node_hash(&w, &nodes[i]), i + 1))
            } else {
                None
            },
        }
    } else {
        match sub_verify(m - k, n - k, nodes, idx, None) {
            None => None,
            Some((o, w, i)) => if i < nodes.len() {
                assert(all.skip(i as int).skip(1) =~= all.skip(i + 1));
                assert(all.skip(i as int)[0] == nodes@[i as int]@);
                Some((node_hash(&nodes[i], &o), node_hash(&nodes[i], &w), i + 1))
            } else {
                None
            },
        }
    }
}

/// The consistency proof that a log gives out verifies against the root of the
/// prefix and the root of the log.
pub proof fn consistency_proofs_verify(entries: Seq<LogEntry>, old_size: u64)
    requires
        0 < old_size <= entries.len(),
        entries.len() <= u64::MAX,
    ensures
        consistency_check(
            old_size,
            root_of(leaves_of(entries).take(old_size as int)),
            entries.len() as u64,
            root_of(leaves_of(entries)),
            prefix_proof(old_size as int, leaves_of(entries), true),
        ) is Ok,
{
    let leaves = leaves_of(entries);
    let nodes = prefix_proof(old_size as int, leaves, true);
    crate::merkle::prefix_proofs_reconstruct_the_roots(
        old_size as int,
        leaves,
        true,
        Seq::empty(),
    );
    assert(nodes + Seq::<Seq<u8>>::empty() =~= nodes);
    if old_size == entries.len() {
        assert(leaves.take(old_size as int) =~= leaves);
    }
}

/// A consistency proof from a prefix that is not empty stands for one root of
/// the prefix and one root of the tree: another root of the tree is refused,
/// and another root of the prefix is accepted only by a collision among the
/// bytes that the two checks hash at one step up from the prefix.
pub proof fn consistency_proofs_bind_the_roots(
    old_size: u64,
    old_root: Seq<u8>,
    new_size: u64,
    new_root: Seq<u8>,
    nodes: Seq<Seq<u8>>,
    other: Seq<u8>,
)
    requires
        0 < old_size,
        consistency_check(old_size, old_root, new_size, new_root, nodes) is Ok,
    ensures
        other != new_root ==> consistency_check(old_size, old_root, new_size, other, nodes) is Err,
        other != old_root && consistency_check(
            old_size,
            other,
            new_size,
            new_root,
            nodes,
        ) is Ok ==> exists|i: int|
            0 <= i < nodes.len() && collide(
                #[trigger] climb_bytes(old_root, right_steps(nodes), i),
                climb_bytes(other, right_steps(nodes), i),
            ),
{
    if other != old_root && consistency_check(old_size, other, new_size, new_root, nodes) is Ok {
        crate::merkle::prefix_roots_are_kept_apart(
            old_size as int,
            new_size as int,
            nodes,
            old_root,
            other,
        );
    }
}

/// Consistency proofs between two sizes have one length, whatever the roots: a
/// proof that is accepted is refused without its last node, or with nodes added.
pub proof fn consistency_proofs_have_one_length(
    old_size: u64,
    old_root: Seq<u8>,
    new_size: u64,
    new_root: Seq<u8>,
    nodes: Seq<Seq<u8>>,
    other_old: Seq<u8>,
    other_new: Seq<u8>,
    other: Seq<Seq<u8>>,
)
    requires
        consistency_check(old_size, old_root, new_size, new_root, nodes) is Ok,
    ensures
        consistency_check(old_size, other_old, new_size, other_new, other) is Ok ==> other.len()
            == nodes.len(),
        nodes.len() > 0 ==> consistency_check(
            old_size,
            old_root,
            new_size,
            new_root,
            nodes.drop_last(),
        ) is Err,
{
    if 0 < old_size < new_size {
        let m = old_size as int;
        let n = new_size as int;
        crate::merkle::reconstruction_takes_its_length(m, n, nodes, Some(old_root));
        crate::merkle::reconstruction_takes_its_length(m, n, other, Some(other_old));
        if nodes.len() > 0 {
            crate::merkle::reconstruction_takes_its_length(
                m,
                n,
                nodes.drop_last(),
                Some(old_root),
            );
        }
    }
}

/// The consistency proof that a log gives out is accepted for the roots of the
/// prefix and of the log, and refused for another root of the log and without
/// its last node; for another root of the prefix it is accepted only by a
/// collision.
pub proof fn logs_prove_their_own_prefixes_only(
    entries: Seq<LogEntry>,
    old_size: u64,
    other: Seq<u8>,
)
    requires
        0 < old_size <= entries.len(),
        entries.len() <= u64::MAX,
    ensures
        ({
            let n = entries.len() as u64;
            let o = root_of(leaves_of(entries).take(old_size as int));
            let r = root_of(leaves_of(entries));
            let nodes = prefix_proof(old_size as int, leaves_of(entries), true);
            &&& consistency_check(old_size, o, n, r, nodes) is Ok
            &&& other != r ==> consistency_check(old_size, o, n, other, nodes) is Err
            &&& nodes.len() > 0 ==> consistency_check(old_size, o, n, r, nodes.drop_last()) is Err
            &&& other != o && consistency_check(old_size, other, n, r, nodes) is Ok
                ==> exists|i: int|
                0 <= i < nodes.len() && collide(
                    #[trigger] climb_bytes(o, right_steps(nodes), i),
                    climb_bytes(other, right_steps(nodes), i),
                )
        }),
{
    let n = entries.len() as u64;
    let o = root_of(leaves_of(entries).take(old_size as int));
    let r = root_of(leaves_of(entries));
    let nodes = prefix_proof(old_size as int, leaves_of(entries), true);
    consistency_proofs_verify(entries, old_size);
    consistency_proofs_bind_the_roots(old_size, o, n, r, nodes, other);
    consistency_proofs_have_one_length(old_size, o, n, r, nodes, o, r, nodes);
}

/// Tree heads of witness logs, anchored in one master log.
#[derive(Debug, Clone, PartialEq, Eq)]
pub struct LogOfLogs {
    /// The master log.
    pub log: TransparencyLog,
    /// How many distinct witnesses are needed.
    pub m: usize,
    /// How many witnesses there are.
    pub k: usize,
    seq_by_log: TextMap<Vec<u64>>,
}

impl LogOfLogs {
    /// The master log.
    pub closed spec fn spec_log(self) -> TransparencyLog {
        self.log
    }

    /// How many distinct witnesses are needed, and how many there are.
    pub closed spec fn quorum(self) -> (usize, usize) {
        (self.m, self.k)
    }

    /// The sequence numbers of the heads of a witness log.
    pub closed spec fn anchored(self, log_id: Seq<char>) -> Seq<u64> {
        match self.seq_by_log.at(log_id) {
            Some(v) => v@,
            None => Seq::empty(),
        }
    }

    /// An empty log of logs.
    pub fn new(m: usize, k: usize) -> (r: LogOfLogs)
        ensures
            r.quorum() == (m, k),
            r.spec_log().spec_log_id() == "log-of-logs"@,
            r.spec_log().spec_entries() == Seq::<LogEntry>::empty(),
            forall|id: Seq<char>| #[trigger] r.anchored(id) == Seq::<u64>::empty(),
    {
        LogOfLogs { log: TransparencyLog::new("log-of-logs"), m, k, seq_by_log: TextMap::new() }
    }

    /// Anchors a head of a witness log and gives its sequence number.
    pub fn append_witness_sth(&mut self, sth: &SignedTreeHead) -> (r: u64)
        ensures
            r == old(self).spec_log().spec_entries().len(),
            final(self).quorum() == old(self).quorum(),
            final(self).spec_log().spec_log_id() == old(self).spec_log().spec_log_id(),
            final(self).spec_log().spec_entries().len() == r + 1,
            final(self).spec_log().spec_entries().drop_last() == old(
                self,
            ).spec_log().spec_entries(),
            final(self).spec_log().spec_entries().last().commitment@ == sth.commitment(),
            final(self).spec_log().spec_entries().last().salt_ref is None,
            forall|id: Seq<char>| #[trigger]
                final(self).anchored(id) == (if id == sth.log_id@ {
                    old(self).anchored(id).push(r)
                } else {
                    old(self).anchored(id)
                }),
    {
        let entry = LogEntry::public(sth.lol_commitment());
        let seq = self.log.append(entry);
        let mut seqs: Vec<u64> = match self.seq_by_log.get(sth.log_id.as_str()) {
            Some(v) => {
                let c = v.clone();
                assert(c@ =~= v@);
                c
            },
            None => Vec::new(),
        };
        seqs.push(seq);
        self.seq_by_log.insert(sth.log_id.as_str(), seqs);
        seq
    }

    /// The inclusion proof of the last head of a witness log.
    pub fn witness_proof(&self, sth: &SignedTreeHead) -> (r: Result<InclusionProof, SignatifError>)
        ensures
            r is Ok == (self.anchored(sth.log_id@).len() > 0 && self.anchored(sth.log_id@).last()
                < self.spec_log().spec_entries().len()),
            r matches Ok(p) ==> p.leaf_index == self.anchored(sth.log_id@).last() && p.tree_size
                == self.spec_log().spec_entries().len() && steps(p.path@) == path_of(
                self.anchored(sth.log_id@).last() as int,
                self.spec_log().leaves(),
            ),
            r matches Err(e) ==> self.anchored(sth.log_id@).len() == 0 ==> e@
                == ErrorView::Transparency(
                "witness log `"@ + sth.log_id@ + "` has no anchored STH"@,
            ),
            r matches Err(e) ==> self.anchored(sth.log_id@).len() > 0 ==> e@
                == ErrorView::Transparency(
                "cannot prove inclusion of "@ + decimal(
                    self.anchored(sth.log_id@).last() as nat,
                ) + " in log `"@ + self.spec_log().spec_log_id() + "` of size "@ + decimal(
                    self.spec_log().spec_entries().len(),
                ),
            ),
    {
        if let Some(seqs) = self.seq_by_log.get(sth.log_id.as_str()) {
            if seqs.len() > 0 {
                return self.log.inclusion_proof(seqs[seqs.len() - 1]);
            }
        }
        Err(
            SignatifError::Transparency(
                cat3("witness log `", sth.log_id.as_str(), "` has no anchored STH"),
            ),
        )
    }

    /// The root of the master log.
    pub fn root(&self) -> (r: Option<Hash32>)
        ensures
            r is Some == (self.spec_log().spec_entries().len() > 0),
            r matches Some(h) ==> h@ == root_of(self.spec_log().leaves()),
    {
        self.log.root()
    }
}

/// The distinct logs among the first `n` witnesses, or the first error: every
/// head must verify and be included in the master log.
pub open spec fn witnessing_logs(
    master_root: Seq<u8>,
    items: Seq<(SignedTreeHead, PublicKey, InclusionProof)>,
    n: int,
) -> Result<Set<Seq<char>>, ErrorView>
    decreases n,
{
    if n <= 0 {
        Ok(Set::empty())
    } else {
        match witnessing_logs(master_root, items, n - 1) {
            Err(e) => Err(e),
            Ok(logs) => {
                let (sth, operator, p) = items[n - 1];
                match sth.check(operator@) {
                    Err(e) => Err(e),
                    Ok(_) => match inclusion_check(sth.commitment(), p, master_root) {
                        Err(e) => Err(e),
                        Ok(_) => Ok(logs.insert(sth.log_id@)),
                    },
                }
            },
        }
    }
}

proof fn lemma_witnessing_error(
    master_root: Seq<u8>,
    items: Seq<(SignedTreeHead, PublicKey, InclusionProof)>,
    k: int,
    n: int,
)
    requires
        0 <= k <= n,
        witnessing_logs(master_root, items, k) is Err,
    ensures
        witnessing_logs(master_root, items, n) == witnessing_logs(master_root, items, k),
    decreases n - k,
{
    if k < n {
        lemma_witnessing_error(master_root, items, k, n - 1);
    }
}

/// Whether the heads of at least `m` distinct witness logs are in the master
/// log. Each head must verify under its operator's key and be included in the
/// master log.
pub fn verify_master_quorum(
    master_root: &Hash32,
    items: &[(SignedTreeHead, PublicKey, InclusionProof)],
    m: usize,
) -> (r: Result<bool, SignatifError>)
    ensures
        match witnessing_logs(master_root@, items@, items@.len() as int) {
            Ok(logs) => r matches Ok(b) && b == (logs.len() >= m),
            Err(v) => r matches Err(e) && e@ == v,
        },
{
    let mut logs = StringSet::new();
    let mut i: usize = 0;
    while i < items.len()
        invariant
            i <= items.len(),
            witnessing_logs(master_root@, items@, i as int) == Ok::<Set<Seq<char>>, ErrorView>(
                logs.members(),
            ),
        decreases items.len() - i,
    {
        let item = &items[i];
        if let Err(e) = item.0.verify(&item.1) {
            proof {
                lemma_witnessing_error(master_root@, items@, i + 1, items@.len() as int);
            }
            return Err(e);
        }
        let commitment = item.0.lol_commitment();
        if let Err(e) = verify_inclusion(&commitment, &item.2, master_root) {
            proof {
                lemma_witnessing_error(master_root@, items@, i + 1, items@.len() as int);
            }
            return Err(e);
        }
        logs.insert(item.0.log_id.as_str());
        i += 1;
    }
    Ok(logs.len() >= m)
}

/// How a tree head is anchored in external time.
#[derive(Debug, Clone, PartialEq, Eq)]
pub enum ExternalAnchorMethod {
    /// An RFC 3161 time-stamp request.
    Rfc3161,
    /// A digest to be left at a rendezvous point.
    OtsLite {
        /// Where the digest is left.
        rendezvous: String,
    },
}

/// What an operator submits to anchor a tree head in external time.
#[derive(Debug, Clone, PartialEq, Eq)]
pub struct ExternalAnchor {
    /// The method.
    pub method: ExternalAnchorMethod,
    /// The digest of the tree head.
    pub digest: Hash32,
    /// The bytes to submit.
    pub payload: Vec<u8>,
}

/// The bytes of an RFC 3161 time-stamp request before the digest: version 1 and
/// a SHA-256 message imprint.
pub const TSQ_PREFIX: [u8; 24] = [
    0x30, 0x39, 0x02, 0x01, 0x01, 0x30, 0x31, 0x30, 0x0d, 0x06, 0x09, 0x60, 0x86, 0x48, 0x01, 0x65,
    0x03, 0x04, 0x02, 0x01, 0x05, 0x00, 0x04, 0x20,
];

/// The bytes after the digest: the certificate is asked for.
pub const TSQ_SUFFIX: [u8; 3] = [0x01, 0x01, 0xff];

/// The bytes to submit for a digest.
pub open spec fn anchor_payload(method: ExternalAnchorMethod, digest: Seq<u8>) -> Seq<u8> {
    match method {
        ExternalAnchorMethod::Rfc3161 => TSQ_PREFIX@ + digest + TSQ_SUFFIX@,
        ExternalAnchorMethod::OtsLite { rendezvous } => digest + utf8(rendezvous@),
    }
}

fn payload_for(method: &ExternalAnchorMethod, digest: &Hash32) -> (r: Vec<u8>)
    ensures
        r@ == anchor_payload(*method, digest@),
{
    match method {
        ExternalAnchorMethod::Rfc3161 => {
            let prefix = TSQ_PREFIX;
            let suffix = TSQ_SUFFIX;
            let mut out = joined(prefix.as_slice(), digest.0.as_slice());
            append(&mut out, suffix.as_slice());
            out
        },
        ExternalAnchorMethod::OtsLite { rendezvous } => joined(
            digest.0.as_slice(),
            rendezvous.as_str().as_bytes(),
        ),
    }
}

/// What to submit to anchor a tree head in external time. Submitting it is up
/// to the operator.
pub fn external_anchor_payload(sth: &SignedTreeHead, method: ExternalAnchorMethod) -> (r:
    ExternalAnchor)
    ensures
        r.method == method,
        r.digest@ == sha256_of(sth.bytes()),
        r.payload@ == anchor_payload(method, sha256_of(sth.bytes())),
{
    let bytes = SignedTreeHead::canonical_bytes(
        sth.log_id.as_str(),
        sth.tree_size,
        sth.timestamp,
        &sth.root,
    );
    let digest = sha256(bytes.as_slice());
    let payload = payload_for(&method, &digest);
    ExternalAnchor { method, digest, payload }
}

/// Checks that what was submitted anchors a tree head.
pub fn verify_external_anchor(sth: &SignedTreeHead, anchor: &ExternalAnchor) -> (r: Result<
    (),
    SignatifError,
>)
    ensures
        r is Ok == (anchor.digest@ == sha256_of(sth.bytes()) && anchor.payload@ == anchor_payload(
            anchor.method,
            anchor.digest@,
        )),
        r matches Err(e) ==> e@ == ErrorView::Transparency(
            if anchor.digest@ != sha256_of(sth.bytes()) {
                "external anchor commits to another tree head"@
            } else {
                "external anchor payload does not carry its digest"@
            },
        ),
{
    let bytes = SignedTreeHead::canonical_bytes(
        sth.log_id.as_str(),
        sth.tree_size,
        sth.timestamp,
        &sth.root,
    );
    let digest = sha256(bytes.as_slice());
    if !digest.same(&anchor.digest) {
        return Err(
            SignatifError::Transparency(
                "external anchor commits to another tree head".to_owned(),
            ),
        );
    }
    let payload = payload_for(&anchor.method, &digest);
    if !same_bytes(payload.as_slice(), anchor.payload.as_slice()) {
        return Err(
            SignatifError::Transparency(
                "external anchor payload does not carry its digest".to_owned(),
            ),
        );
    }
    Ok(())
}

} // verus!
