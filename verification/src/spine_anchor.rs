//! Spines in the transparency log: a spine's digest is one public entry, and a
//! receipt proves offline that it is there.

use vstd::prelude::*;

use crate::anchor::{
    inclusion_check, no_entry_error, steps, tree_head_bytes, verify_inclusion, InclusionProof,
    LogEntry, SignedTreeHead, TransparencyLog,
};
use crate::digest::Hash32;
use crate::grid::SignedSpine;
use crate::keyring::{KeyPair, KeyView, PublicKey};
use crate::merkle::{path_of, root_of};
use crate::sign::{signing_error, SigningDomain};
use crate::time::Timestamp;
use crate::{ErrorView, SignatifError};

verus! {

/// Anchors a spine in the log and gives its sequence number.
pub fn anchor_spine(log: &mut TransparencyLog, spine: &SignedSpine) -> (r: u64)
    ensures
        r == old(log).spec_entries().len(),
        final(log).spec_log_id() == old(log).spec_log_id(),
        final(log).spec_entries().len() == old(log).spec_entries().len() + 1,
        final(log).spec_entries().drop_last() == old(log).spec_entries(),
        final(log).spec_entries().last().commitment@ == spine.spine.spec_digest(),
        final(log).spec_entries().last().salt_ref is None,
{
    let entry = LogEntry::public(Hash32(spine.spine.digest()));
    let r = log.append(entry);
    assert(log.spec_entries().drop_last() =~= old(log).spec_entries());
    r
}

/// A proof that a spine's digest is in the log.
#[derive(Debug, Clone, PartialEq, Eq)]
pub struct SpineReceipt {
    /// The digest.
    pub spine_digest: Hash32,
    /// The log.
    pub log_id: String,
    /// The sequence number of the entry.
    pub seq: u64,
    /// The proof of inclusion.
    pub inclusion: InclusionProof,
    /// The operator's signed head of the tree.
    pub head: SignedTreeHead,
}

impl SpineReceipt {
    /// What checking the receipt under the operator's key gives.
    pub open spec fn check(self, operator: KeyView) -> Result<(), ErrorView> {
        match self.head.check(operator) {
            Err(e) => Err(e),
            Ok(_) => inclusion_check(self.spine_digest@, self.inclusion, self.head.root@),
        }
    }

    /// Serves the receipt of an entry. It verifies under the operator's key.
    pub fn serve(log: &TransparencyLog, seq: u64, at: Timestamp, operator: &KeyPair) -> (r: Result<
        SpineReceipt,
        SignatifError,
    >)
        ensures
            r is Ok == (seq < log.spec_entries().len() && operator.slot(
                SigningDomain::TreeHead,
                tree_head_bytes(
                    log.spec_log_id(),
                    log.spec_entries().len() as u64,
                    at,
                    root_of(log.leaves()),
                ),
            ) is Some),
            r matches Ok(x) ==> x.spine_digest == log.spec_entries()[seq as int].commitment
                && x.log_id@ == log.spec_log_id() && x.seq == seq && x.inclusion.leaf_index == seq
                && x.inclusion.tree_size == log.spec_entries().len() && steps(x.inclusion.path@)
                == path_of(seq as int, log.leaves()) && x.head.log_id@ == log.spec_log_id()
                && x.head.tree_size == log.spec_entries().len() && x.head.timestamp == at
                && x.head.root@ == root_of(log.leaves()) && x.check(operator.spec_public()) == Ok::<
                (),
                ErrorView,
            >(()),
            r matches Err(e) ==> e@ == (if seq >= log.spec_entries().len() {
                no_entry_error(log.spec_log_id(), seq)
            } else {
                signing_error()
            }),
    {
        let spine_digest = match log.entry(seq) {
            Err(e) => {
                return Err(e);
            },
            Ok(entry) => entry.commitment,
        };
        let inclusion = match log.inclusion_proof(seq) {
            Err(e) => {
                return Err(e);
            },
            Ok(p) => p,
        };
        let n = log.len();
        let head = match log.sign_tree_head(at, operator) {
            Err(e) => {
                return Err(e);
            },
            Ok(h) => h,
        };
        proof {
            crate::anchor::inclusion_proofs_verify(log.spec_entries(), seq as int, inclusion);
        }
        Ok(SpineReceipt { spine_digest, log_id: head.log_id.clone(), seq, inclusion, head })
    }

    /// Checks the operator's signature and the proof.
    pub fn verify(&self, operator: &PublicKey) -> (r: Result<(), SignatifError>)
        ensures
            crate::outcome(r) == self.check(operator@),
    {
        if let Err(e) = self.head.verify(operator) {
            return Err(e);
        }
        verify_inclusion(&self.spine_digest, &self.inclusion, &self.head.root)
    }
}

} // verus!
