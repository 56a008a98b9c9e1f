//! The dossier: everything a foreign verifier needs about one passport, as
//! signed objects. It is checked offline, with the verifier's own graph.

use vstd::prelude::*;

use crate::digest::Hash32;
use crate::graph::{GraphView, TrustGraph};
use crate::grid::{SignedPolicy, SignedSpine};
use crate::s13::{decision_views, replayed, DecisionView, S13Decision, S13Journal};
use crate::segments::{Spine, SpineProof};
use crate::sovereign::SovereignAttestation;
use crate::spine_anchor::SpineReceipt;
use crate::text::{cat3, cat5, decimal, number};
use crate::{error_of, first_error, ErrorView, SignatifError};

verus! {

/// The exchanged objects of one passport.
#[derive(Debug, Clone, PartialEq, Eq)]
pub struct Dossier {
    /// The passport.
    pub subject: String,
    /// The policies, signed by their authorities.
    pub policies: Vec<SignedPolicy>,
    /// The spine, signed by its custodian.
    pub spine: SignedSpine,
    /// Proofs of single segments.
    pub proofs: Vec<SpineProof>,
    /// Attestations about sealed segments.
    pub attestations: Vec<SovereignAttestation>,
    /// The journal of questions and answers.
    pub journal: S13Journal,
    /// The spine's receipt from the transparency log.
    pub receipt: Option<SpineReceipt>,
}

/// What checking a dossier established.
#[derive(Debug, Clone, PartialEq, Eq)]
pub struct DossierCheck {
    /// How many policies verified.
    pub policies_ok: usize,
    /// How many proofs verified.
    pub proofs_ok: usize,
    /// How many attestations verified.
    pub attestations_ok: usize,
    /// The decisions of the journal.
    pub journal_decisions: Vec<S13Decision>,
}

impl Default for DossierCheck {
    fn default() -> (r: DossierCheck)
        ensures
            r.policies_ok == 0,
            r.proofs_ok == 0,
            r.attestations_ok == 0,
            r.journal_decisions@.len() == 0,
    {
        DossierCheck {
            policies_ok: 0,
            proofs_ok: 0,
            attestations_ok: 0,
            journal_decisions: Vec::new(),
        }
    }
}

/// The errors of policies.
pub open spec fn policy_errors(policies: Seq<SignedPolicy>, graph: GraphView) -> Seq<
    Option<ErrorView>,
> {
    policies.map_values(|p: SignedPolicy| error_of(p.check(graph)))
}

/// The error of a proof against a root.
pub open spec fn proof_error(p: SpineProof, root: Seq<u8>) -> Option<ErrorView> {
    if p.holds(root) {
        None
    } else {
        Some(
            ErrorView::Crypto(
                "dossier: inclusion proof for `"@ + p.segment_id@ + "` fails the spine root"@,
            ),
        )
    }
}

/// The errors of proofs.
pub open spec fn proof_errors(proofs: Seq<SpineProof>, root: Seq<u8>) -> Seq<Option<ErrorView>> {
    proofs.map_values(|p: SpineProof| proof_error(p, root))
}

/// Whether some policy of a list is the one that an attestation names.
pub open spec fn bound(attestation: SovereignAttestation, policies: Seq<SignedPolicy>) -> bool {
    exists|i: int| 0 <= i < policies.len() && attestation.binds((#[trigger] policies[i]).policy)
}

/// The error of an attestation: it does not verify, or it names no policy of
/// the dossier.
pub open spec fn attestation_error(
    a: SovereignAttestation,
    policies: Seq<SignedPolicy>,
    graph: GraphView,
) -> Option<ErrorView> {
    match a.check(graph) {
        Err(e) => Some(e),
        Ok(_) => if bound(a, policies) {
            None
        } else {
            Some(
                ErrorView::Crypto(
                    "dossier: an attestation names governing policy `"@
                        + a.statement.governing_policy@ + "` v"@ + decimal(
                        a.statement.governing_policy_version as nat,
                    ) + " which the dossier does not carry"@,
                ),
            )
        },
    }
}

/// The errors of attestations.
pub open spec fn attestation_errors(
    attestations: Seq<SovereignAttestation>,
    policies: Seq<SignedPolicy>,
    graph: GraphView,
) -> Seq<Option<ErrorView>> {
    attestations.map_values(|a: SovereignAttestation| attestation_error(a, policies, graph))
}

/// The error of a receipt: it is for another spine.
pub open spec fn receipt_error(receipt: Option<SpineReceipt>, spine: Spine) -> Option<ErrorView> {
    match receipt {
        Some(x) => if x.spine_digest@ == spine.spec_digest() {
            None
        } else {
            Some(ErrorView::Crypto("dossier: the log receipt binds a different spine"@))
        },
        None => None,
    }
}

impl Dossier {
    /// What checking the dossier gives: the decisions of the journal, or the
    /// first error, in the order policies, spine, proofs, attestations,
    /// receipt, journal.
    pub open spec fn check(self, graph: GraphView) -> Result<Seq<DecisionView>, ErrorView> {
        match first_error(policy_errors(self.policies@, graph)) {
            Some(e) => Err(e),
            None => match error_of(self.spine.check(graph)) {
                Some(e) => Err(e),
                None => match first_error(proof_errors(self.proofs@, self.spine.spine.root@)) {
                    Some(e) => Err(e),
                    None => match first_error(
                        attestation_errors(self.attestations@, self.policies@, graph),
                    ) {
                        Some(e) => Err(e),
                        None => match receipt_error(self.receipt, self.spine.spine) {
                            Some(e) => Err(e),
                            None => replayed(graph, self.journal.entries@, self.journal.entries@),
                        },
                    },
                },
            },
        }
    }

    fn check_policies(&self, graph: &TrustGraph) -> (r: Result<(), SignatifError>)
        ensures
            match first_error(policy_errors(self.policies@, graph@)) {
                None => r is Ok,
                Some(f) => r matches Err(e) && e@ == f,
            },
    {
        let ghost all = policy_errors(self.policies@, graph@);
        let mut i: usize = 0;
        assert(all.take(0) =~= Seq::<Option<ErrorView>>::empty());
        while i < self.policies.len()
            invariant
                i <= self.policies.len(),
                all == policy_errors(self.policies@, graph@),
                first_error(all.take(i as int)) is None,
            decreases self.policies.len() - i,
        {
            proof {
                assert(all.take(i + 1).drop_last() =~= all.take(i as int));
                assert(all.take(i + 1).last() == error_of(
                    self.policies@[i as int].check(graph@),
                ));
            }
            if let Err(e) = self.policies[i].verify(graph) {
                proof {
                    crate::lemma_first_error(all, i + 1);
                }
                return Err(e);
            }
            i += 1;
        }
        assert(all.take(i as int) =~= all);
        Ok(())
    }

    fn check_proofs(&self) -> (r: Result<(), SignatifError>)
        ensures
            match first_error(proof_errors(self.proofs@, self.spine.spine.root@)) {
                None => r is Ok,
                Some(f) => r matches Err(e) && e@ == f,
            },
    {
        let ghost all = proof_errors(self.proofs@, self.spine.spine.root@);
        let mut i: usize = 0;
        assert(all.take(0) =~= Seq::<Option<ErrorView>>::empty());
        while i < self.proofs.len()
            invariant
                i <= self.proofs.len(),
                all == proof_errors(self.proofs@, self.spine.spine.root@),
                first_error(all.take(i as int)) is None,
            decreases self.proofs.len() - i,
        {
            proof {
                assert(all.take(i + 1).drop_last() =~= all.take(i as int));
                assert(all.take(i + 1).last() == proof_error(
                    self.proofs@[i as int],
                    self.spine.spine.root@,
                ));
            }
            if !self.proofs[i].verifies_against(&self.spine.spine.root) {
                proof {
                    crate::lemma_first_error(all, i + 1);
                }
                return Err(
                    SignatifError::Crypto(
                        cat3(
                            "dossier: inclusion proof for `",
                            self.proofs[i].segment_id.as_str(),
                            "` fails the spine root",
                        ),
                    ),
                );
            }
            i += 1;
        }
        assert(all.take(i as int) =~= all);
        Ok(())
    }

    fn is_bound(&self, attestation: &SovereignAttestation) -> (r: bool)
        ensures
            r == bound(*attestation, self.policies@),
    {
        let mut i: usize = 0;
        while i < self.policies.len()
            invariant
                i <= self.policies.len(),
                forall|k: int|
                    0 <= k < i ==> !attestation.binds((#[trigger] self.policies@[k]).policy),
            decreases self.policies.len() - i,
        {
            if attestation.binds_policy(&self.policies[i].policy) {
                return true;
            }
            i += 1;
        }
        false
    }

    fn check_attestations(&self, graph: &TrustGraph) -> (r: Result<(), SignatifError>)
        ensures
            match first_error(attestation_errors(self.attestations@, self.policies@, graph@)) {
                None => r is Ok,
                Some(f) => r matches Err(e) && e@ == f,
            },
    {
        let ghost all = attestation_errors(self.attestations@, self.policies@, graph@);
        let mut i: usize = 0;
        assert(all.take(0) =~= Seq::<Option<ErrorView>>::empty());
        while i < self.attestations.len()
            invariant
                i <= self.attestations.len(),
                all == attestation_errors(self.attestations@, self.policies@, graph@),
                first_error(all.take(i as int)) is None,
            decreases self.attestations.len() - i,
        {
            let attestation = &self.attestations[i];
            proof {
                assert(all.take(i + 1).drop_last() =~= all.take(i as int));
                assert(all.take(i + 1).last() == attestation_error(
                    *attestation,
                    self.policies@,
                    graph@,
                ));
            }
            if let Err(e) = attestation.verify(graph) {
                proof {
                    crate::lemma_first_error(all, i + 1);
                }
                return Err(e);
            }
            if !self.is_bound(attestation) {
                proof {
                    crate::lemma_first_error(all, i + 1);
                }
                let version = number(attestation.statement.governing_policy_version);
                return Err(
                    SignatifError::Crypto(
                        cat5(
                            "dossier: an attestation names governing policy `",
                            attestation.statement.governing_policy.as_str(),
                            "` v",
                            version.as_str(),
                            " which the dossier does not carry",
                        ),
                    ),
                );
            }
            i += 1;
        }
        assert(all.take(i as int) =~= all);
        Ok(())
    }

    /// Checks the dossier under the verifier's own graph.
    pub fn verify(&self, graph: &TrustGraph) -> (r: Result<DossierCheck, SignatifError>)
        ensures
            match self.check(graph@) {
                Ok(d) => r matches Ok(c) && c.policies_ok == self.policies@.len() && c.proofs_ok
                    == self.proofs@.len() && c.attestations_ok == self.attestations@.len()
                    && decision_views(c.journal_decisions@) == d,
                Err(f) => r matches Err(e) && e@ == f,
            },
    {
        if let Err(e) = self.check_policies(graph) {
            return Err(e);
        }
        if let Err(e) = self.spine.verify(graph) {
            return Err(e);
        }
        if let Err(e) = self.check_proofs() {
            return Err(e);
        }
        if let Err(e) = self.check_attestations(graph) {
            return Err(e);
        }
        if let Some(receipt) = &self.receipt {
            let digest = Hash32(self.spine.spine.digest());
            if !receipt.spine_digest.same(&digest) {
                return Err(
                    SignatifError::crypto("dossier: the log receipt binds a different spine"),
                );
            }
        }
        match self.journal.replay(graph) {
            Err(e) => Err(e),
            Ok(journal_decisions) => Ok(
                DossierCheck {
                    policies_ok: self.policies.len(),
                    proofs_ok: self.proofs.len(),
                    attestations_ok: self.attestations.len(),
                    journal_decisions,
                },
            ),
        }
    }
}

/// Whether a dossier holds nothing unsigned, nothing unproved and nothing
/// unbound.
pub open spec fn is_sound(dossier: Dossier, graph: GraphView) -> bool {
    &&& forall|i: int|
        0 <= i < dossier.policies@.len() ==> (#[trigger] dossier.policies@[i]).check(graph) is Ok
    &&& dossier.spine.check(graph) is Ok
    &&& forall|i: int|
        0 <= i < dossier.proofs@.len() ==> (#[trigger] dossier.proofs@[i]).holds(
            dossier.spine.spine.root@,
        )
    &&& forall|i: int|
        0 <= i < dossier.attestations@.len() ==> (#[trigger] dossier.attestations@[i]).check(
            graph,
        ) is Ok && bound(dossier.attestations@[i], dossier.policies@)
    &&& dossier.receipt matches Some(x) ==> x.spine_digest@ == dossier.spine.spine.spec_digest()
    &&& replayed(graph, dossier.journal.entries@, dossier.journal.entries@) is Ok
}

/// A dossier that checks out is sound: tampering with any part is an error.
pub proof fn checked_dossiers_are_sound(dossier: Dossier, graph: GraphView)
    requires
        dossier.check(graph) is Ok,
    ensures
        is_sound(dossier, graph),
{
    assert forall|i: int| 0 <= i < dossier.policies@.len() implies (
    #[trigger] dossier.policies@[i]).check(graph) is Ok by {
        crate::lemma_no_error(policy_errors(dossier.policies@, graph), i);
    }
    assert forall|i: int| 0 <= i < dossier.proofs@.len() implies (
    #[trigger] dossier.proofs@[i]).holds(dossier.spine.spine.root@) by {
        crate::lemma_no_error(proof_errors(dossier.proofs@, dossier.spine.spine.root@), i);
    }
    assert forall|i: int| 0 <= i < dossier.attestations@.len() implies (
    #[trigger] dossier.attestations@[i]).check(graph) is Ok && bound(
        dossier.attestations@[i],
        dossier.policies@,
    ) by {
        crate::lemma_no_error(
            attestation_errors(dossier.attestations@, dossier.policies@, graph),
            i,
        );
    }
}

/// A sound dossier checks out, and gives the decisions of its journal.
pub proof fn sound_dossiers_check_out(dossier: Dossier, graph: GraphView)
    requires
        is_sound(dossier, graph),
    ensures
        dossier.check(graph) == replayed(
            graph,
            dossier.journal.entries@,
            dossier.journal.entries@,
        ),
{
    let policies = policy_errors(dossier.policies@, graph);
    let proofs = proof_errors(dossier.proofs@, dossier.spine.spine.root@);
    let attestations = attestation_errors(dossier.attestations@, dossier.policies@, graph);
    assert forall|i: int| 0 <= i < policies.len() implies (#[trigger] policies[i]) is None by {
        assert(dossier.policies@[i].check(graph) is Ok);
    }
    assert forall|i: int| 0 <= i < proofs.len() implies (#[trigger] proofs[i]) is None by {
        assert(dossier.proofs@[i].holds(dossier.spine.spine.root@));
    }
    assert forall|i: int| 0 <= i < attestations.len() implies (
    #[trigger] attestations[i]) is None by {
        assert(dossier.attestations@[i].check(graph) is Ok);
    }
    crate::lemma_all_clear(policies);
    crate::lemma_all_clear(proofs);
    crate::lemma_all_clear(attestations);
}

} // verus!
