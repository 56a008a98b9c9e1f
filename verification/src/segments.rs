//! Segments of a passport: the policies that govern them, and the spine that
//! commits to their states.

use vstd::bytes::spec_u64_to_le_bytes;
use vstd::prelude::*;

use crate::anchor::{
    inclusion_check, steps, verify_inclusion, InclusionProof, LogEntry, TransparencyLog,
};
use crate::canon::{
    list_bytes, option_bytes, option_number_bytes, option_text, text_field, CanonicalWriter,
};
use crate::digest::{sha256, sha256_of, Hash32};
use crate::maps::TextMap;
use crate::merkle::{leaf_of, path_of, root_of};
use crate::sets::texts;
use crate::text::same_text;

verus! {

/// How a segment reveals its state.
#[derive(Debug, Clone, Copy, PartialEq, Eq, Structural)]
pub enum RevealClass {
    /// To everybody who may verify.
    Open,
    /// To a paired reader.
    PairingGated,
    /// Never; an attestation stands in for it.
    OriginSealed,
    /// Through escalation only.
    Escrowed,
}

impl RevealClass {
    /// The token of the class.
    pub open spec fn spec_token(self) -> Seq<char> {
        match self {
            RevealClass::Open => "open"@,
            RevealClass::PairingGated => "pairing-gated"@,
            RevealClass::OriginSealed => "origin-sealed"@,
            RevealClass::Escrowed => "escrowed"@,
        }
    }

    /// The token of the class.
    pub fn token(self) -> (r: &'static str)
        ensures
            r@ == self.spec_token(),
    {
        match self {
            RevealClass::Open => "open",
            RevealClass::PairingGated => "pairing-gated",
            RevealClass::OriginSealed => "origin-sealed",
            RevealClass::Escrowed => "escrowed",
        }
    }
}

/// A policy that governs a segment.
#[derive(Debug, Clone, PartialEq, Eq)]
pub struct PolicyObject {
    /// The id of the policy.
    pub policy_id: String,
    /// Its version.
    pub version: u64,
    /// The node that answers for it.
    pub authority: String,
    /// Who may read.
    pub readers: Vec<String>,
    /// Who may ask; `any-verifier` stands for everybody.
    pub verifiers: Vec<String>,
    /// Who may write.
    pub writers: Vec<String>,
    /// How the segment reveals its state.
    pub reveal: RevealClass,
    /// The suites that it admits.
    pub suites: Vec<String>,
    /// The start of its validity.
    pub valid_from: String,
    /// The end of its validity.
    pub valid_to: Option<String>,
    /// The version that supersedes it.
    pub superseded_by: Option<u64>,
}

/// A reference to a version of a policy.
#[derive(Debug, Clone, PartialEq, Eq)]
pub struct PolicyRef {
    /// The id of the policy.
    pub policy_id: String,
    /// The version.
    pub version: u64,
}

/// How a reference stands to a policy.
#[derive(Debug, Clone, Copy, PartialEq, Eq, Structural)]
pub enum PolicyVerdict {
    /// The reference names the version in force.
    Current,
    /// The reference names a version that was superseded.
    Stale {
        /// The version that it names.
        have: u64,
        /// The version in force.
        current: u64,
    },
    /// The reference names another policy.
    Unrelated,
}

impl PolicyObject {
    /// The canonical bytes of the policy.
    pub open spec fn bytes(self) -> Seq<u8> {
        text_field(self.policy_id@) + spec_u64_to_le_bytes(self.version) + text_field(
            self.authority@,
        ) + list_bytes(texts(self.readers@)) + list_bytes(texts(self.verifiers@)) + list_bytes(
            texts(self.writers@),
        ) + text_field(self.reveal.spec_token()) + list_bytes(texts(self.suites@)) + text_field(
            self.valid_from@,
        ) + option_bytes(option_text(self.valid_to)) + option_number_bytes(self.superseded_by)
    }

    /// The version in force: the superseding one, if there is one.
    pub open spec fn version_in_force(self) -> u64 {
        match self.superseded_by {
            Some(v) => v,
            None => self.version,
        }
    }

    /// How a reference stands to the policy.
    pub open spec fn standing(self, policy_id: Seq<char>, version: u64) -> PolicyVerdict {
        if policy_id != self.policy_id@ {
            PolicyVerdict::Unrelated
        } else if version < self.version_in_force() {
            PolicyVerdict::Stale { have: version, current: self.version_in_force() }
        } else {
            PolicyVerdict::Current
        }
    }

    /// The canonical bytes of the policy.
    pub fn canonical_bytes(&self) -> (r: Vec<u8>)
        ensures
            r@ == self.bytes(),
    {
        let mut w = CanonicalWriter::new();
        w.write_str(self.policy_id.as_str());
        w.write_u64(self.version);
        w.write_str(self.authority.as_str());
        w.write_list(&self.readers);
        w.write_list(&self.verifiers);
        w.write_list(&self.writers);
        w.write_str(self.reveal.token());
        w.write_list(&self.suites);
        w.write_str(self.valid_from.as_str());
        w.write_option(&self.valid_to);
        w.write_option_number(self.superseded_by);
        assert(w@ =~= self.bytes());
        w.into_bytes()
    }

    /// How a reference stands to the policy.
    pub fn status_for(&self, referenced: &PolicyRef) -> (r: PolicyVerdict)
        ensures
            r == self.standing(referenced.policy_id@, referenced.version),
    {
        if !same_text(referenced.policy_id.as_str(), self.policy_id.as_str()) {
            return PolicyVerdict::Unrelated;
        }
        let current = match self.superseded_by {
            Some(v) => v,
            None => self.version,
        };
        if referenced.version < current {
            PolicyVerdict::Stale { have: referenced.version, current }
        } else {
            PolicyVerdict::Current
        }
    }
}

/// The segments of a passport.
pub struct Segment;

impl Segment {
    /// The commitment to the state of a segment.
    pub fn commit_state(state: &[u8]) -> (r: [u8; 32])
        ensures
            r@ == sha256_of(state@),
    {
        sha256(state).0
    }
}

/// What the spine commits to for a segment: its id and its state's commitment.
pub open spec fn segment_entry(id: Seq<char>, commitment: Seq<u8>) -> Seq<u8> {
    sha256_of(text_field(id) + commitment)
}

/// The leaves of the spine's tree, in ascending order of the segments' ids.
pub open spec fn spine_leaves(commitments: TextMap<[u8; 32]>) -> Seq<Seq<u8>> {
    Seq::new(
        commitments.keys().len(),
        |i: int| leaf_of(segment_entry(commitments.keys()[i], commitments.values()[i]@)),
    )
}

/// The root of the spine's tree; a spine without segments has the hash of
/// nothing.
pub open spec fn spine_root(commitments: TextMap<[u8; 32]>) -> Seq<u8> {
    if commitments.keys().len() == 0 {
        sha256_of(Seq::empty())
    } else {
        root_of(spine_leaves(commitments))
    }
}

/// The commitments to the states of all segments, under one root.
#[derive(Debug, Clone, PartialEq, Eq)]
pub struct Spine {
    /// The version.
    pub version: u64,
    /// The commitments by the segments' ids.
    pub commitments: TextMap<[u8; 32]>,
    /// The root.
    pub root: [u8; 32],
}

/// A proof that a segment's commitment is under a spine's root.
#[derive(Debug, Clone, PartialEq, Eq)]
pub struct SpineProof {
    /// The segment.
    pub segment_id: String,
    /// Its commitment.
    pub commitment: [u8; 32],
    /// The way up to the root.
    pub inclusion: InclusionProof,
}

fn segment_log(commitments: &TextMap<[u8; 32]>) -> (r: TransparencyLog)
    ensures
        r.leaves() == spine_leaves(*commitments),
        forall|i: int|
            0 <= i < commitments.keys().len() ==> (#[trigger] r.spec_entries()[i]).commitment@
                == segment_entry(commitments.keys()[i], commitments.values()[i]@),
        r.spec_entries().len() == commitments.keys().len(),
{
    let mut log = TransparencyLog::new("spine");
    let n = commitments.len();
    let mut i: usize = 0;
    while i < n
        invariant
            i <= n,
            n == commitments.keys().len(),
            n == commitments.values().len(),
            log.spec_entries().len() == i,
            forall|k: int|
                0 <= k < i ==> (#[trigger] log.spec_entries()[k]).commitment@ == segment_entry(
                    commitments.keys()[k],
                    commitments.values()[k]@,
                ),
        decreases n - i,
    {
        let h = entry_hash(commitments.key_at(i).as_str(), commitments.value_at(i));
        log.append(LogEntry::public(h));
        i += 1;
    }
    assert(log.leaves() =~= spine_leaves(*commitments));
    log
}

fn entry_hash(id: &str, commitment: &[u8; 32]) -> (r: Hash32)
    ensures
        r@ == segment_entry(id@, commitment@),
{
    let mut w = CanonicalWriter::new();
    w.write_str(id);
    w.write_hash(&Hash32(*commitment));
    assert(w@ =~= text_field(id@) + commitment@);
    let bytes = w.into_bytes();
    sha256(bytes.as_slice())
}

impl SpineProof {
    /// Whether the proof leads to a root.
    pub open spec fn holds(self, root: Seq<u8>) -> bool {
        inclusion_check(
            segment_entry(self.segment_id@, self.commitment@),
            self.inclusion,
            root,
        ) is Ok
    }

    /// Whether the proof leads to a root.
    pub fn verifies_against(&self, root: &[u8; 32]) -> (r: bool)
        ensures
            r == self.holds(root@),
    {
        let entry = entry_hash(self.segment_id.as_str(), &self.commitment);
        verify_inclusion(&entry, &self.inclusion, &Hash32(*root)).is_ok()
    }
}

impl Spine {
    /// The digest of the spine: of its version and its root.
    pub open spec fn spec_digest(self) -> Seq<u8> {
        sha256_of(spec_u64_to_le_bytes(self.version) + self.root@)
    }

    /// The spine over commitments.
    pub fn over(version: u64, commitments: TextMap<[u8; 32]>) -> (r: Spine)
        ensures
            r.version == version,
            r.commitments == commitments,
            r.root@ == spine_root(commitments),
    {
        let log = segment_log(&commitments);
        let root = match log.root() {
            Some(h) => h.0,
            None => {
                let nothing: Vec<u8> = Vec::new();
                assert(nothing@ =~= Seq::<u8>::empty());
                sha256(nothing.as_slice()).0
            },
        };
        Spine { version, commitments, root }
    }

    /// The digest of the spine.
    pub fn digest(&self) -> (r: [u8; 32])
        ensures
            r@ == self.spec_digest(),
    {
        let mut w = CanonicalWriter::new();
        w.write_u64(self.version);
        w.write_hash(&Hash32(self.root));
        assert(w@ =~= spec_u64_to_le_bytes(self.version) + self.root@);
        let bytes = w.into_bytes();
        sha256(bytes.as_slice()).0
    }

    /// The proof for a segment. It leads to the root over the spine's
    /// commitments.
    pub fn proof_for(&self, segment: &str) -> (r: Option<SpineProof>)
        ensures
            r is Some == self.commitments.keys().contains(segment@),
            r matches Some(p) ==> p.segment_id@ == segment@ && Some(p.commitment)
                == self.commitments.at(segment@) && p.inclusion.leaf_index
                == self.commitments.keys().index_of(segment@) && p.inclusion.tree_size
                == self.commitments.keys().len() && steps(p.inclusion.path@) == path_of(
                self.commitments.keys().index_of(segment@),
                spine_leaves(self.commitments),
            ) && p.holds(spine_root(self.commitments)),
    {
        let log = segment_log(&self.commitments);
        self.commitments.reveal_order();
        let n = self.commitments.len();
        let ghost keys = self.commitments.keys();
        let mut i: usize = 0;
        while i < n
            invariant
                i <= n,
                keys == self.commitments.keys(),
                n == keys.len(),
                forall|k: int| 0 <= k < i ==> #[trigger] keys[k] != segment@,
            ensures
                i <= n,
                forall|k: int| 0 <= k < i ==> #[trigger] keys[k] != segment@,
                i < n ==> keys[i as int] == segment@,
            decreases n - i,
        {
            if same_text(self.commitments.key_at(i).as_str(), segment) {
                break ;
            }
            i += 1;
        }
        if i == n {
            return None;
        }
        let commitment = *self.commitments.value_at(i);
        proof {
            assert(keys.contains(keys[i as int]));
            assert(keys[keys.index_of(segment@)] == segment@);
            assert(self.commitments.at(keys[i as int]) == Some(
                self.commitments.values()[i as int],
            ));
            crate::maps::lemma_ascending_positions(keys);
        }
        match log.inclusion_proof(i as u64) {
            Err(_) => None,
            Ok(inclusion) => {
                let proof_ = SpineProof { segment_id: segment.to_owned(), commitment, inclusion };
                proof {
                    crate::anchor::inclusion_proofs_verify(
                        log.spec_entries(),
                        i as int,
                        inclusion,
                    );
                    assert(keys.index_of(segment@) == i);
                }
                Some(proof_)
            },
        }
    }
}

} // verus!
