//! A coordinator that runs real ceremonies with [`crate::threshold`].
//!
//! Opening a session deals the quorum's group, once per quorum. The first
//! round collects the members' nonce points, the second their partial
//! signatures, and aggregating combines these into one Ed25519 signature of
//! the framed statement. Rounds are strict: exactly as many messages as the
//! threshold close a round, and a late message is refused.
//!
//! The seed of a group is derived from the quorum alone, so every coordinator
//! that knows the quorum deals the same group. That makes rehearsals
//! reproducible, and unfit to guard a real root: the seed is public.

use vstd::bytes::spec_u64_to_le_bytes;
use vstd::prelude::*;

use crate::bytes::{append, copied, same_bytes, utf8};
use crate::canon::CanonicalWriter;
use crate::confium::{
    expired, framework, framework_error, is_session_id, node_texts, past_expiry,
    session_id_error, AggregatedSignature, CeremonyCoordinator, CeremonyError, CeremonyErrorView,
    CeremonyKind, Commitment, InitView, MisbehaviorProof, ProofView, QuorumSpec, QuorumSpecView,
    SessionId, SessionInit, SessionState, Share,
};
use crate::digest::{sha256, sha256_of};
use crate::graph::NodeId;
use crate::keyring::{KeyView, PublicKey};
use crate::maps::TextMap;
use crate::sets::{sort_texts, sorted_texts, texts};
use crate::sign::{domain_framed, framed, SigningDomain, Suite};
use crate::text::{cat2, cat3, cat4, decimal, number, same_text, trimmed};
use crate::threshold::material::{partial_in, partial_message};
use crate::threshold::{
    coefficients, combine, combined, dealt_group, dealt_share, ed25519_bytes_of, generate,
    group_dealt_by, honest_contributions_combine, nonce_indices, nonce_point, nonce_point_of,
    nonce_texts, partial_of, partial_views, place_of, reads_back, share_indices, share_scalar,
    share_views, sign_partial, unhex32, unhex32_of, GroupKey, GroupView, MemberShare,
    PartialSignature, PartialView, ShareView,
};
use crate::time::Timestamp;
use crate::{ErrorView, SignatifError};

verus! {

/// The texts of a list, one after the other.
pub open spec fn concatenated(s: Seq<Seq<char>>) -> Seq<u8>
    decreases s.len(),
{
    if s.len() == 0 {
        Seq::empty()
    } else {
        concatenated(s.drop_last()) + utf8(s.last())
    }
}

/// The tag in front of the seed of a quorum.
pub const SEED_TAG: &'static str = "UNIDPP-SIGNATIF/CONFIUM-REAL/CEREMONY-SEED";

/// The seed of a quorum: the digest of the threshold, the quorum and its
/// members in ascending order.
pub open spec fn quorum_seed(quorum: QuorumSpecView) -> Seq<u8> {
    sha256_of(
        utf8(SEED_TAG@) + spec_u64_to_le_bytes(quorum.threshold as u64) + utf8(quorum.quorum_id)
            + concatenated(sorted_texts(quorum.members)),
    )
}

/// A group and its shares, as a quorum's seed determines them.
pub open spec fn dealt_to(quorum: QuorumSpecView) -> (GroupView, Seq<ShareView>) {
    let f = coefficients(quorum_seed(quorum), quorum.threshold as int);
    let n = quorum.members.len() as usize;
    (
        dealt_group(f, n),
        Seq::new((n as u32) as nat, |i: int| dealt_share(f, (i + 1) as u32)),
    )
}

/// The first position of a text in a list.
pub open spec fn first_at(s: Seq<Seq<char>>, x: Seq<char>) -> Option<int>
    decreases s.len(),
{
    if s.len() == 0 {
        None
    } else {
        match first_at(s.drop_last(), x) {
            Some(i) => Some(i),
            None => if s.last() == x {
                Some(s.len() - 1)
            } else {
                None
            },
        }
    }
}

/// The index of a member: the position among the members in ascending order,
/// from 1.
pub open spec fn index_in(members: Seq<Seq<char>>, name: Seq<char>) -> Option<u32> {
    match first_at(members, name) {
        Some(i) => if i < u32::MAX {
            Some((i + 1) as u32)
        } else {
            None
        },
        None => None,
    }
}

proof fn lemma_first_at(s: Seq<Seq<char>>, x: Seq<char>, k: int)
    requires
        0 <= k <= s.len(),
        first_at(s.take(k), x) is Some,
    ensures
        first_at(s, x) == first_at(s.take(k), x),
    decreases s.len() - k,
{
    if k < s.len() {
        assert(s.take(k + 1).drop_last() =~= s.take(k));
        lemma_first_at(s, x, k + 1);
    } else {
        assert(s.take(k) =~= s);
    }
}

fn find_index(members: &Vec<String>, name: &str) -> (r: Option<u32>)
    ensures
        r == index_in(texts(members@), name@),
{
    let ghost all = texts(members@);
    let mut i: usize = 0;
    assert(all.take(0) =~= Seq::<Seq<char>>::empty());
    while i < members.len()
        invariant
            i <= members.len(),
            all == texts(members@),
            first_at(all.take(i as int), name@) is None,
        decreases members.len() - i,
    {
        proof {
            assert(all.take(i + 1).drop_last() =~= all.take(i as int));
            assert(all.take(i + 1).last() == members@[i as int]@);
        }
        if same_text(members[i].as_str(), name) {
            proof {
                lemma_first_at(all, name@, i + 1);
            }
            return if i < 0xffff_ffff {
                Some(i as u32 + 1)
            } else {
                None
            };
        }
        i += 1;
    }
    assert(all.take(i as int) =~= all);
    None
}

/// A session.
#[derive(Debug, PartialEq, Eq)]
struct BridgeSession {
    init: SessionInit,
    members: Vec<String>,
    state: SessionState,
    committed: Vec<(u32, String)>,
    partials: Vec<(PartialSignature, Vec<u8>)>,
    abort: Option<MisbehaviorProof>,
}

/// The partial signatures of contributions.
pub open spec fn contributed(s: Seq<(PartialSignature, Vec<u8>)>) -> Seq<PartialView> {
    s.map_values(|x: (PartialSignature, Vec<u8>)| x.0@)
}

/// The messages of contributions.
pub open spec fn contributions(s: Seq<(PartialSignature, Vec<u8>)>) -> Seq<Seq<u8>> {
    s.map_values(|x: (PartialSignature, Vec<u8>)| x.1@)
}

/// A session as a mathematical value.
#[verifier::ext_equal]
pub struct BridgeView {
    /// The request.
    pub init: InitView,
    /// The members in ascending order; a member's index is their position,
    /// from 1.
    pub members: Seq<Seq<char>>,
    /// How far it is.
    pub state: SessionState,
    /// The indices of the members that committed, ascending.
    pub committed: Seq<u32>,
    /// Their nonce points.
    pub nonces: Seq<Seq<char>>,
    /// The partial signatures, by ascending index.
    pub partials: Seq<PartialView>,
    /// The messages that they came in.
    pub materials: Seq<Seq<u8>>,
    /// The proof of the last misbehaviour.
    pub abort: Option<ProofView>,
}

impl View for BridgeSession {
    type V = BridgeView;

    closed spec fn view(&self) -> BridgeView {
        BridgeView {
            init: self.init@,
            members: texts(self.members@),
            state: self.state,
            committed: nonce_indices(self.committed@),
            nonces: nonce_texts(self.committed@),
            partials: contributed(self.partials@),
            materials: contributions(self.partials@),
            abort: match self.abort {
                Some(p) => Some(p@),
                None => None,
            },
        }
    }
}

/// The error of a quorum without a group.
pub open spec fn no_group_error(quorum_id: Seq<char>) -> CeremonyErrorView {
    CeremonyErrorView::Framework("quorum `"@ + quorum_id + "` has no generated group"@)
}

/// The share of an index in a group.
pub open spec fn share_in_group(
    entry: Option<(GroupView, Seq<ShareView>)>,
    quorum_id: Seq<char>,
    index: u32,
) -> Result<ShareView, CeremonyErrorView> {
    match entry {
        Some(x) => if 0 < index <= x.1.len() {
            Ok(x.1[index - 1])
        } else {
            Err(no_share_error(quorum_id, index))
        },
        None => Err(no_share_error(quorum_id, index)),
    }
}

/// The error of a group without a share for an index.
pub open spec fn no_share_error(quorum_id: Seq<char>, index: u32) -> CeremonyErrorView {
    CeremonyErrorView::Framework(
        "quorum `"@ + quorum_id + "` has no share for member "@ + decimal(index as nat),
    )
}

/// The offense of a commitment that is not the member's nonce point.
pub const WRONG_NONCE: &'static str = "commitment transcript is not the member's deterministic nonce point for this statement";

/// The offense of a partial signature that is not over the member's
/// commitment.
pub const UNBOUND_PARTIAL: &'static str = "partial nonce does not match the member's round-1 commitment";

/// The offense of a partial signature that fails its check.
pub const FAILED_PARTIAL: &'static str = "threshold partial failed the Feldman commitment verification (combine aborted, culprit identified)";

/// The indices of partial signatures.
pub open spec fn indices_of(s: Seq<PartialView>) -> Seq<u32> {
    s.map_values(|p: PartialView| p.index)
}

impl BridgeView {
    /// What the partial signatures sign.
    pub open spec fn message(self) -> Seq<u8> {
        framed(SigningDomain::Quorum, self.init.payload)
    }

    /// The session after a misbehaviour, and the refusal.
    pub open spec fn abort_by<T>(
        self,
        offender: Seq<char>,
        offense: Seq<char>,
        evidence: Seq<u8>,
    ) -> (BridgeView, Result<T, CeremonyErrorView>) {
        let p = ProofView { offender, offense, evidence };
        (BridgeView { abort: Some(p), ..self }, Err(CeremonyErrorView::Misbehavior(p)))
    }

    /// The refusal of a message of another round.
    pub open spec fn wrong_round(self, id: Seq<char>, attempted: Seq<char>) -> CeremonyErrorView {
        CeremonyErrorView::WrongRound { session: id, attempted, state: self.state }
    }

    /// The session after a commitment, and what the member is told.
    pub open spec fn commit(
        self,
        id: Seq<char>,
        entry: Option<(GroupView, Seq<ShareView>)>,
        signer: Seq<char>,
        transcript: Seq<u8>,
    ) -> (BridgeView, Result<(), CeremonyErrorView>) {
        if self.state != SessionState::Pending {
            (self, Err(self.wrong_round(id, "submit a round-1 commitment"@)))
        } else {
            match index_in(self.members, signer) {
                None => self.abort_by(signer, "commitment from non-member"@, transcript),
                Some(index) => if self.committed.contains(index) {
                    self.abort_by(signer, "double commitment in round 1"@, transcript)
                } else {
                    match share_in_group(entry, self.init.quorum.quorum_id, index) {
                        Err(e) => (self, Err(e)),
                        Ok(share) => match nonce_point_of(share, self.message()) {
                            Err(e) => (self, Err(framework("nonce point: "@, e))),
                            Ok(expected) => if transcript != utf8(expected) {
                                self.abort_by(signer, WRONG_NONCE@, transcript)
                            } else {
                                (self.with_commitment(index, expected), Ok(()))
                            },
                        },
                    }
                },
            }
        }
    }

    /// The session with one more commitment.
    pub open spec fn with_commitment(self, index: u32, nonce: Seq<char>) -> BridgeView {
        let at = place_of(self.committed, index);
        BridgeView {
            committed: self.committed.insert(at, index),
            nonces: self.nonces.insert(at, nonce),
            state: if self.committed.len() + 1 >= self.init.quorum.threshold {
                SessionState::CommitmentsCollected
            } else {
                self.state
            },
            ..self
        }
    }

    /// The session after a share, and what the member is told.
    pub open spec fn share(self, id: Seq<char>, signer: Seq<char>, material: Seq<u8>) -> (
        BridgeView,
        Result<(), CeremonyErrorView>,
    ) {
        if self.state != SessionState::CommitmentsCollected {
            (self, Err(self.wrong_round(id, "submit a round-2 share"@)))
        } else {
            match index_in(self.members, signer) {
                None => self.abort_by(signer, "share from non-member"@, material),
                Some(index) => if !self.committed.contains(index) {
                    self.abort_by(signer, "share without a round-1 commitment"@, material)
                } else if indices_of(self.partials).contains(index) {
                    self.abort_by(signer, "double share in round 2"@, material)
                } else {
                    match partial_in(material) {
                        None => self.abort_by(
                            signer,
                            "share material is not a threshold partial signature"@,
                            material,
                        ),
                        Some(p) => if p.index != index {
                            self.abort_by(
                                signer,
                                "partial claims another member's index"@,
                                material,
                            )
                        } else if p.nonce != self.nonces[position_of(self.committed, index)] {
                            self.abort_by(signer, UNBOUND_PARTIAL@, material)
                        } else {
                            (self.with_partial(p, material), Ok(()))
                        },
                    }
                },
            }
        }
    }

    /// The session with one more partial signature.
    pub open spec fn with_partial(self, p: PartialView, material: Seq<u8>) -> BridgeView {
        let at = place_of(indices_of(self.partials), p.index);
        BridgeView {
            partials: self.partials.insert(at, p),
            materials: self.materials.insert(at, material),
            state: if self.partials.len() + 1 >= self.init.quorum.threshold {
                SessionState::SharesCollected
            } else {
                self.state
            },
            ..self
        }
    }

    /// What the member of an index contributes, made from their own share.
    pub open spec fn honest(self, entry: Option<(GroupView, Seq<ShareView>)>, index: u32) -> Result<
        PartialView,
        CeremonyErrorView,
    > {
        match entry {
            None => Err(no_group_error(self.init.quorum.quorum_id)),
            Some(x) => match share_in_group(entry, self.init.quorum.quorum_id, index) {
                Err(e) => Err(e),
                Ok(share) => match partial_of(
                    x.0,
                    share,
                    self.message(),
                    self.committed,
                    self.nonces,
                ) {
                    Err(e) => Err(framework("partial signing: "@, e)),
                    Ok(p) => Ok(p),
                },
            },
        }
    }

    /// The position of the first partial signature that is not what its member
    /// contributes.
    pub open spec fn culprit(self, entry: Option<(GroupView, Seq<ShareView>)>, k: int) -> Result<
        Option<int>,
        CeremonyErrorView,
    >
        decreases self.partials.len() - k,
    {
        if k < 0 || k >= self.partials.len() {
            Ok(None)
        } else {
            match self.honest(entry, self.partials[k].index) {
                Err(e) => Err(e),
                Ok(p) => if p != self.partials[k] {
                    Ok(Some(k))
                } else {
                    self.culprit(entry, k + 1)
                },
            }
        }
    }

    /// The message of a partial signature.
    pub open spec fn material(self, k: int) -> Seq<u8> {
        if k < self.materials.len() {
            self.materials[k]
        } else {
            Seq::empty()
        }
    }

    /// The refusal after a failed combination: the member whose partial
    /// signature is wrong, if one is.
    pub open spec fn blame(
        self,
        entry: Option<(GroupView, Seq<ShareView>)>,
        failure: ErrorView,
    ) -> (BridgeView, Result<(Seq<u8>, Seq<u8>), CeremonyErrorView>) {
        match self.culprit(entry, 0) {
            Err(e) => (
                self,
                Err(CeremonyErrorView::Framework("culprit identification: "@ + e.text())),
            ),
            Ok(None) => (self, Err(framework("threshold combination failed: "@, failure))),
            Ok(Some(k)) => {
                let index = self.partials[k].index;
                if 0 < index <= self.members.len() {
                    self.abort_by(self.members[index - 1], FAILED_PARTIAL@, self.material(k))
                } else {
                    (
                        self,
                        Err(
                            CeremonyErrorView::Framework(
                                "culprit index "@ + decimal(index as nat)
                                    + " has no quorum member"@,
                            ),
                        ),
                    )
                }
            },
        }
    }

    /// The session after aggregating, and the signature and the group key.
    pub open spec fn aggregated(self, entry: Option<(GroupView, Seq<ShareView>)>) -> (
        BridgeView,
        Result<(Seq<u8>, Seq<u8>), CeremonyErrorView>,
    ) {
        if self.partials.len() < self.init.quorum.threshold {
            (
                self,
                Err(
                    CeremonyErrorView::ThresholdNotMet {
                        have: self.partials.len(),
                        need: self.init.quorum.threshold as nat,
                    },
                ),
            )
        } else {
            match entry {
                None => (self, Err(no_group_error(self.init.quorum.quorum_id))),
                Some(x) => match combined(x.0, self.message(), self.partials) {
                    Err(e) => self.blame(entry, e),
                    Ok(signature) => match ed25519_bytes_of(signature) {
                        Err(e) => (self, Err(framework("group signature encoding: "@, e))),
                        Ok(value) => match unhex32_of(x.0.group_public) {
                            None => (
                                self,
                                Err(
                                    CeremonyErrorView::Framework(
                                        "the group public key is not hex"@,
                                    ),
                                ),
                            ),
                            Some(key) => (
                                BridgeView { state: SessionState::Completed, ..self },
                                Ok((value, key)),
                            ),
                        },
                    },
                },
            }
        }
    }
}

/// Whether numbers are in ascending order, each once.
pub open spec fn climbing(s: Seq<u32>) -> bool {
    forall|i: int, j: int| 0 <= i < j < s.len() ==> #[trigger] s[i] < #[trigger] s[j]
}

impl BridgeView {
    /// Whether the session is what its rounds make of it: members are held in
    /// ascending order, each commitment is the member's nonce point, only members
    /// that committed contribute, and each round is closed by as many messages as
    /// the threshold asks for.
    pub open spec fn sound(self, entry: Option<(GroupView, Seq<ShareView>)>) -> bool {
        &&& climbing(self.committed)
        &&& climbing(indices_of(self.partials))
        &&& self.nonces.len() == self.committed.len()
        &&& forall|i: int|
            0 <= i < self.committed.len() ==> (share_in_group(
                entry,
                self.init.quorum.quorum_id,
                #[trigger] self.committed[i],
            ) matches Ok(share) && nonce_point_of(share, self.message()) == Ok::<
                Seq<char>,
                ErrorView,
            >(self.nonces[i]))
        &&& forall|i: int|
            0 <= i < self.partials.len() ==> self.committed.contains(
                (#[trigger] self.partials[i]).index,
            )
        &&& match self.state {
            SessionState::Pending => self.committed.len() < self.init.quorum.threshold
                && self.partials.len() == 0,
            SessionState::CommitmentsCollected => self.committed.len()
                == self.init.quorum.threshold && self.partials.len()
                < self.init.quorum.threshold,
            _ => self.committed.len() == self.init.quorum.threshold && self.partials.len()
                == self.init.quorum.threshold,
        }
    }

    /// Whether each partial signature is what its member's share gives.
    pub open spec fn all_honest(self, entry: Option<(GroupView, Seq<ShareView>)>) -> bool {
        forall|i: int|
            0 <= i < self.partials.len() ==> self.honest(
                entry,
                (#[trigger] self.partials[i]).index,
            ) == Ok::<PartialView, CeremonyErrorView>(self.partials[i])
    }

    /// Whether as many members as the group asks for contributed, each what
    /// their share gives.
    pub open spec fn fulfilled(self, entry: Option<(GroupView, Seq<ShareView>)>) -> bool {
        &&& self.sound(entry)
        &&& self.all_honest(entry)
        &&& self.partials.len() == self.init.quorum.threshold
        &&& entry matches Some(x) && x.0.threshold == self.init.quorum.threshold
    }
}

/// The position of a number in a list of distinct numbers.
pub open spec fn position_of(s: Seq<u32>, x: u32) -> int
    decreases s.len(),
{
    if s.len() == 0 || s.last() == x {
        s.len() - 1
    } else {
        position_of(s.drop_last(), x)
    }
}

/// A group and its shares, as they were dealt.
#[derive(Debug, PartialEq, Eq)]
struct DealtGroup {
    group: GroupKey,
    shares: Vec<MemberShare>,
}

/// Whether a group and its shares belong to the coefficients of one
/// polynomial; a share's index is its position, from 1.
pub open spec fn entry_dealt_by(f: Seq<int>, group: GroupView, shares: Seq<ShareView>) -> bool {
    &&& group_dealt_by(f, group)
    &&& forall|i: int|
        0 <= i < shares.len() ==> #[trigger] shares[i] == dealt_share(f, (i + 1) as u32)
}

/// Whether a group and its shares were dealt.
pub open spec fn was_dealt(group: GroupView, shares: Seq<ShareView>) -> bool {
    exists|f: Seq<int>| #[trigger] entry_dealt_by(f, group, shares)
}

impl DealtGroup {
    #[verifier::type_invariant]
    spec fn dealt(self) -> bool {
        was_dealt(self.group@, share_views(self.shares@))
    }
}

fn group_at(groups: &TextMap<DealtGroup>, quorum_id: &str) -> (r: Result<
    GroupKey,
    CeremonyError,
>)
    ensures
        match groups.at(quorum_id@) {
            Some(x) => r matches Ok(g) && g@ == x.group@ && was_dealt(
                g@,
                share_views(x.shares@),
            ),
            None => r matches Err(e) && e@ == no_group_error(quorum_id@),
        },
{
    match groups.get(quorum_id) {
        Some(x) => {
            proof {
                use_type_invariant(x);
            }
            Ok(x.group.clone())
        },
        None => Err(
            CeremonyError::Framework(
                cat3("quorum `", quorum_id, "` has no generated group"),
            ),
        ),
    }
}

/// A group and its shares as mathematical values.
spec fn entry_view(entry: Option<DealtGroup>) -> Option<(GroupView, Seq<ShareView>)> {
    match entry {
        Some(x) => Some((x.group@, share_views(x.shares@))),
        None => None,
    }
}

fn share_at(groups: &TextMap<DealtGroup>, quorum_id: &str, index: u32) -> (r:
    Result<MemberShare, CeremonyError>)
    ensures
        match share_in_group(entry_view(groups.at(quorum_id@)), quorum_id@, index) {
            Ok(s) => r matches Ok(m) && m@ == s,
            Err(f) => r matches Err(e) && e@ == f,
        },
{
    if let Some(x) = groups.get(quorum_id) {
        if 0 < index && ((index - 1) as usize) < x.shares.len() {
            assert(share_views(x.shares@)[index - 1] == x.shares@[index - 1]@);
            return Ok(x.shares[(index - 1) as usize].clone());
        }
    }
    let n = number(index as u64);
    Err(
        CeremonyError::Framework(
            cat4("quorum `", quorum_id, "` has no share for member ", n.as_str()),
        ),
    )
}

impl BridgeSession {
    fn message(&self) -> (r: Vec<u8>)
        ensures
            r@ == self@.message(),
    {
        domain_framed(SigningDomain::Quorum, self.init.statement.payload.as_slice())
    }

    fn record_abort(&mut self, offender: &NodeId, offense: &str, evidence: &[u8]) -> (r:
        CeremonyError)
        ensures
            ({
                let p = ProofView { offender: offender@, offense: offense@, evidence: evidence@ };
                r@ == CeremonyErrorView::Misbehavior(p) && final(self)@ == (BridgeView {
                    abort: Some(p),
                    ..old(self)@
                })
            }),
    {
        let p = MisbehaviorProof::of(offender, offense, evidence);
        self.abort = Some(p.clone());
        CeremonyError::Misbehavior(Box::new(p))
    }

    fn has_committed(&self, index: u32) -> (r: bool)
        ensures
            r == self@.committed.contains(index),
    {
        let ghost all = self@.committed;
        let mut i: usize = 0;
        while i < self.committed.len()
            invariant
                i <= self.committed.len(),
                all == self@.committed,
                forall|k: int| 0 <= k < i ==> #[trigger] all[k] != index,
            decreases self.committed.len() - i,
        {
            assert(all[i as int] == self.committed@[i as int].0);
            if self.committed[i].0 == index {
                return true;
            }
            i += 1;
        }
        false
    }

    fn has_partial(&self, index: u32) -> (r: bool)
        ensures
            r == indices_of(self@.partials).contains(index),
    {
        let ghost all = indices_of(self@.partials);
        let mut i: usize = 0;
        while i < self.partials.len()
            invariant
                i <= self.partials.len(),
                all == indices_of(self@.partials),
                forall|k: int| 0 <= k < i ==> #[trigger] all[k] != index,
            decreases self.partials.len() - i,
        {
            assert(all[i as int] == self.partials@[i as int].0.index);
            if self.partials[i].0.index == index {
                return true;
            }
            i += 1;
        }
        false
    }

    fn nonce_of(&self, index: u32) -> (r: &String)
        requires
            self@.committed.contains(index),
        ensures
            r@ == self@.nonces[position_of(self@.committed, index)],
    {
        let ghost all = self@.committed;
        let mut i: usize = self.committed.len();
        assert(all.take(i as int) =~= all);
        while i > 1 && self.committed[i - 1].0 != index
            invariant
                i <= self.committed.len(),
                all == self@.committed,
                all.take(i as int).contains(index),
                position_of(all.take(i as int), index) == position_of(all, index),
            decreases i,
        {
            let ghost now = all.take(i as int);
            assert(now.drop_last() =~= all.take(i - 1));
            assert(now.last() == self.committed@[i - 1].0);
            let ghost k = now.index_of(index);
            assert(now.drop_last()[k] == index);
            i -= 1;
        }
        let ghost now = all.take(i as int);
        assert(i > 0);
        assert(now.last() == self.committed@[i - 1].0);
        assert(now.last() == index) by {
            if i == 1 {
                assert(now[now.index_of(index)] == index);
            }
        }
        &self.committed[i - 1].1
    }

    fn add_commitment(&mut self, index: u32, nonce: String)
        ensures
            final(self)@ == old(self)@.with_commitment(index, nonce@),
    {
        let ghost was = self@;
        let ghost all = self@.committed;
        let mut i: usize = self.committed.len();
        assert(all.take(i as int) =~= all);
        while i > 0 && self.committed[i - 1].0 > index
            invariant
                i <= self.committed.len(),
                self@ == was,
                all == self@.committed,
                place_of(all.take(i as int), index) == place_of(all, index),
            decreases i,
        {
            assert(all.take(i as int).drop_last() =~= all.take(i - 1));
            assert(all.take(i as int).last() == self.committed@[i - 1].0);
            i -= 1;
        }
        assert(place_of(all.take(i as int), index) == i) by {
            if i > 0 {
                assert(all.take(i as int).last() == self.committed@[i - 1].0);
            }
        }
        self.committed.insert(i, (index, nonce));
        assert(self@.committed =~= was.committed.insert(i as int, index));
        assert(self@.nonces =~= was.nonces.insert(i as int, nonce@));
        if self.committed.len() >= self.init.quorum.threshold {
            self.state = SessionState::CommitmentsCollected;
        }
    }

    fn add_partial(&mut self, p: PartialSignature, material: Vec<u8>)
        ensures
            final(self)@ == old(self)@.with_partial(p@, material@),
    {
        let ghost was = self@;
        let ghost all = indices_of(self@.partials);
        let mut i: usize = self.partials.len();
        assert(all.take(i as int) =~= all);
        while i > 0 && self.partials[i - 1].0.index > p.index
            invariant
                i <= self.partials.len(),
                self@ == was,
                all == indices_of(self@.partials),
                place_of(all.take(i as int), p.index) == place_of(all, p.index),
            decreases i,
        {
            assert(all.take(i as int).drop_last() =~= all.take(i - 1));
            assert(all.take(i as int).last() == self.partials@[i - 1].0.index);
            i -= 1;
        }
        assert(place_of(all.take(i as int), p.index) == i) by {
            if i > 0 {
                assert(all.take(i as int).last() == self.partials@[i - 1].0.index);
            }
        }
        let ghost pv = p@;
        let ghost mv = material@;
        self.partials.insert(i, (p, material));
        assert(self@.partials =~= was.partials.insert(i as int, pv));
        assert(self@.materials =~= was.materials.insert(i as int, mv));
        if self.partials.len() >= self.init.quorum.threshold {
            self.state = SessionState::SharesCollected;
        }
    }
}

/// The partial signatures of contributions.
fn partials_of(s: &Vec<(PartialSignature, Vec<u8>)>) -> (r: Vec<PartialSignature>)
    ensures
        partial_views(r@) == contributed(s@),
{
    let ghost all = contributed(s@);
    let mut out: Vec<PartialSignature> = Vec::new();
    let mut i: usize = 0;
    assert(partial_views(out@) =~= all.take(0));
    while i < s.len()
        invariant
            i <= s.len(),
            all == contributed(s@),
            partial_views(out@) == all.take(i as int),
        decreases s.len() - i,
    {
        let ghost before = partial_views(out@);
        let p = s[i].0.clone();
        out.push(p);
        assert(partial_views(out@) =~= before.push(all[i as int]));
        assert(before.push(all[i as int]) =~= all.take(i + 1));
        i += 1;
    }
    assert(all.take(i as int) =~= all);
    out
}

/// Whether the nonce point of the member of an index can be read from its
/// encoding.
spec fn nonce_reads_back(
    s: BridgeView,
    entry: Option<(GroupView, Seq<ShareView>)>,
    index: u32,
) -> bool {
    share_in_group(entry, s.init.quorum.quorum_id, index) matches Ok(share) && reads_back(
        share_scalar(share)->Ok_0,
        s.message(),
    )
}

spec fn nonces_read_back(s: BridgeView, entry: Option<(GroupView, Seq<ShareView>)>) -> bool {
    forall|i: int|
        0 <= i < s.partials.len() ==> nonce_reads_back(
            s,
            entry,
            (#[trigger] s.partials[i]).index,
        )
}

fn honest_partial_at(
    groups: &TextMap<DealtGroup>,
    s: &BridgeSession,
    index: u32,
) -> (r: Result<PartialSignature, CeremonyError>)
    ensures
        match s@.honest(entry_view(groups.at(s@.init.quorum.quorum_id)), index) {
            Ok(p) => r matches Ok(q) && q@ == p,
            Err(f) => r matches Err(e) && e@ == f,
        },
        r is Ok ==> nonce_reads_back(
            s@,
            entry_view(groups.at(s@.init.quorum.quorum_id)),
            index,
        ),
{
    let id = s.init.quorum.quorum_id.as_str();
    let group = match group_at(groups, id) {
        Err(e) => {
            return Err(e);
        },
        Ok(g) => g,
    };
    let share = match share_at(groups, id, index) {
        Err(e) => {
            return Err(e);
        },
        Ok(m) => m,
    };
    let message = s.message();
    match sign_partial(&group, &share, message.as_slice(), s.committed.as_slice()) {
        Ok(p) => Ok(p),
        Err(e) => Err(framework_error("partial signing: ", &e)),
    }
}

proof fn lemma_culprit_step(
    s: BridgeView,
    entry: Option<(GroupView, Seq<ShareView>)>,
    k: int,
)
    requires
        0 <= k < s.partials.len(),
    ensures
        s.culprit(entry, k) == (match s.honest(entry, s.partials[k].index) {
            Err(e) => Err(e),
            Ok(p) => if p != s.partials[k] {
                Ok(Some(k))
            } else {
                s.culprit(entry, k + 1)
            },
        }),
{
}

fn find_culprit(groups: &TextMap<DealtGroup>, s: &BridgeSession) -> (r: Result<
    Option<usize>,
    CeremonyError,
>)
    ensures
        match s@.culprit(entry_view(groups.at(s@.init.quorum.quorum_id)), 0) {
            Ok(None) => r matches Ok(x) && x is None,
            Ok(Some(k)) => r matches Ok(Some(i)) && i == k && k < s@.partials.len(),
            Err(f) => r matches Err(e) && e@ == f,
        },
        r matches Ok(None) ==> nonces_read_back(
            s@,
            entry_view(groups.at(s@.init.quorum.quorum_id)),
        ),
{
    let ghost entry = entry_view(groups.at(s@.init.quorum.quorum_id));
    let mut i: usize = 0;
    while i < s.partials.len()
        invariant
            i <= s.partials.len(),
            entry == entry_view(groups.at(s@.init.quorum.quorum_id)),
            s@.culprit(entry, 0) == s@.culprit(entry, i as int),
            forall|k: int|
                0 <= k < i ==> nonce_reads_back(s@, entry, (#[trigger] s@.partials[k]).index),
        decreases s.partials.len() - i,
    {
        proof {
            lemma_culprit_step(s@, entry, i as int);
            assert(s@.partials[i as int] == s.partials@[i as int].0@);
        }
        match honest_partial_at(groups, s, s.partials[i].0.index) {
            Err(e) => {
                return Err(e);
            },
            Ok(p) => {
                if !p.same(&s.partials[i].0) {
                    return Ok(Some(i));
                }
            },
        }
        i += 1;
    }
    Ok(None)
}

/// The coordinator.
#[derive(Debug, PartialEq, Eq)]
pub struct RealCeremony {
    sessions: TextMap<BridgeSession>,
    groups: TextMap<DealtGroup>,
    counter: u64,
    clock: Option<Timestamp>,
}

fn member_names(members: &Vec<NodeId>) -> (r: Vec<String>)
    ensures
        texts(r@) == node_texts(members@),
{
    let ghost all = node_texts(members@);
    let mut out: Vec<String> = Vec::new();
    let mut i: usize = 0;
    assert(texts(out@) =~= all.take(0));
    while i < members.len()
        invariant
            i <= members.len(),
            all == node_texts(members@),
            texts(out@) == all.take(i as int),
        decreases members.len() - i,
    {
        let ghost before = texts(out@);
        out.push(members[i].to_string());
        assert(texts(out@) =~= before.push(all[i as int]));
        assert(before.push(all[i as int]) =~= all.take(i + 1));
        i += 1;
    }
    assert(all.take(i as int) =~= all);
    out
}

/// The refusal of a kind of ceremony.
pub open spec fn kind_error(kind: CeremonyKind) -> CeremonyErrorView {
    CeremonyErrorView::Framework(
        "a "@ + kind.spec_name()
            + " ceremony is not implemented in this bridge: threshold has no re-share — run a fresh Dkg (new quorum id) or use the ceremony binary"@,
    )
}

impl RealCeremony {
    /// The session under a handle.
    pub closed spec fn session_at(self, id: Seq<char>) -> Option<BridgeView> {
        match self.sessions.at(id) {
            Some(s) => Some(s@),
            None => None,
        }
    }

    /// The group of a quorum and its shares.
    pub closed spec fn group_of(self, quorum_id: Seq<char>) -> Option<(GroupView, Seq<ShareView>)> {
        entry_view(self.groups.at(quorum_id))
    }

    /// How many sessions were asked for.
    pub closed spec fn spec_counter(self) -> u64 {
        self.counter
    }

    /// The clock.
    pub closed spec fn spec_clock(self) -> Option<Timestamp> {
        self.clock
    }

    /// Whether the groups, the counter and the clock stay.
    pub open spec fn keeps_rest(self, after: RealCeremony) -> bool {
        &&& after.spec_counter() == self.spec_counter()
        &&& after.spec_clock() == self.spec_clock()
        &&& forall|k: Seq<char>| #[trigger] after.group_of(k) == self.group_of(k)
    }

    /// Whether all that changes is the session under a handle.
    pub open spec fn changes_only(self, after: RealCeremony, id: Seq<char>, s: BridgeView) -> bool {
        &&& self.keeps_rest(after)
        &&& forall|k: Seq<char>| #[trigger]
            after.session_at(k) == (if k == id {
                Some(s)
            } else {
                self.session_at(k)
            })
    }

    /// Whether nothing changes.
    pub open spec fn unchanged(self, after: RealCeremony) -> bool {
        &&& self.keeps_rest(after)
        &&& forall|k: Seq<char>| #[trigger] after.session_at(k) == self.session_at(k)
    }

    /// Why a session takes no messages, if it takes none.
    pub open spec fn dead(self, id: Seq<char>) -> Option<CeremonyErrorView> {
        match self.session_at(id) {
            None => Some(CeremonyErrorView::UnknownSession(id)),
            Some(s) => if past_expiry(self.spec_clock(), s.init.expires_at, s.state) {
                Some(CeremonyErrorView::Expired)
            } else {
                None
            },
        }
    }

    /// The group under which a session acts.
    pub open spec fn entry_for(self, s: BridgeView) -> Option<(GroupView, Seq<ShareView>)> {
        self.group_of(s.init.quorum.quorum_id)
    }

    /// Whether every session is what its rounds make of it.
    pub open spec fn rounds_hold(self) -> bool {
        forall|id: Seq<char>|
            (#[trigger] self.session_at(id)) matches Some(s) ==> s.sound(self.entry_for(s))
    }

    /// The share of a member in a session.
    pub open spec fn member_share(self, id: Seq<char>, member: Seq<char>) -> Result<
        ShareView,
        CeremonyErrorView,
    > {
        match self.session_at(id) {
            None => Err(CeremonyErrorView::UnknownSession(id)),
            Some(s) => match index_in(s.members, member) {
                None => Err(
                    CeremonyErrorView::Framework(
                        ""@ + member + " is not a member of quorum "@ + s.init.quorum.quorum_id,
                    ),
                ),
                Some(index) => share_in_group(
                    self.entry_for(s),
                    s.init.quorum.quorum_id,
                    index,
                ),
            },
        }
    }

    /// A coordinator without sessions, with a clock if expiry is to be
    /// checked.
    pub fn new(clock: Option<Timestamp>) -> (r: RealCeremony)
        ensures
            forall|k: Seq<char>| #[trigger] r.session_at(k) is None,
            forall|k: Seq<char>| #[trigger] r.group_of(k) is None,
            r.spec_counter() == 0,
            r.spec_clock() == clock,
            r.rounds_hold(),
    {
        RealCeremony { sessions: TextMap::new(), groups: TextMap::new(), counter: 0, clock }
    }

    /// Sets the clock.
    pub fn set_clock(&mut self, now: Timestamp)
        ensures
            final(self).spec_clock() == Some(now),
            final(self).spec_counter() == old(self).spec_counter(),
            forall|k: Seq<char>| #[trigger] final(self).session_at(k) == old(self).session_at(k),
            forall|k: Seq<char>| #[trigger] final(self).group_of(k) == old(self).group_of(k),
            old(self).rounds_hold() ==> final(self).rounds_hold(),
    {
        self.clock = Some(now);
        assert forall|k: Seq<char>| #[trigger] self.session_at(k) == old(self).session_at(k) by {}
        assert forall|k: Seq<char>| #[trigger] self.group_of(k) == old(self).group_of(k) by {}
    }

    /// The seed of a quorum. It does not depend on the order in which the
    /// members are listed.
    pub fn ceremony_seed(quorum: &QuorumSpec) -> (r: Vec<u8>)
        ensures
            r@ == quorum_seed(quorum@),
    {
        let names = member_names(&quorum.members);
        let members = sort_texts(&names);
        let ghost all = texts(members@);
        let mut w = CanonicalWriter::new();
        w.write_u64(quorum.threshold as u64);
        let threshold = w.into_bytes();
        assert(threshold@ =~= spec_u64_to_le_bytes(quorum.threshold as u64));
        let mut data: Vec<u8> = Vec::new();
        append(&mut data, SEED_TAG.as_bytes());
        append(&mut data, threshold.as_slice());
        append(&mut data, quorum.quorum_id.as_str().as_bytes());
        let ghost head = utf8(SEED_TAG@) + spec_u64_to_le_bytes(quorum.threshold as u64) + utf8(
            quorum.quorum_id@,
        );
        let mut i: usize = 0;
        assert(all.take(0) =~= Seq::<Seq<char>>::empty());
        assert(data@ =~= head + concatenated(all.take(0)));
        while i < members.len()
            invariant
                i <= members.len(),
                all == texts(members@),
                data@ == head + concatenated(all.take(i as int)),
            decreases members.len() - i,
        {
            proof {
                assert(all.take(i + 1).drop_last() =~= all.take(i as int));
                assert(all.take(i + 1).last() == members@[i as int]@);
            }
            append(&mut data, members[i].as_str().as_bytes());
            assert(data@ =~= head + concatenated(all.take(i + 1)));
            i += 1;
        }
        assert(all.take(i as int) =~= all);
        let digest = sha256(data.as_slice());
        copied(digest.0.as_slice())
    }

    fn live(&self, session: &SessionId) -> (r: Result<(), CeremonyError>)
        ensures
            match self.dead(session@) {
                None => r is Ok && self.session_at(session@) is Some,
                Some(f) => r matches Err(e) && e@ == f,
            },
    {
        match self.sessions.get(session.as_str()) {
            None => Err(CeremonyError::UnknownSession(session.to_string())),
            Some(s) => if expired(self.clock, s.init.expires_at, s.state) {
                Err(CeremonyError::Expired)
            } else {
                Ok(())
            },
        }
    }

    /// The group under which a session acts.
    pub fn group(&self, session: &SessionId) -> (r: Result<GroupKey, CeremonyError>)
        ensures
            match self.session_at(session@) {
                None => r matches Err(e) && e@ == CeremonyErrorView::UnknownSession(session@),
                Some(s) => match self.entry_for(s) {
                    Some(x) => r matches Ok(g) && g@ == x.0,
                    None => r matches Err(e) && e@ == no_group_error(s.init.quorum.quorum_id),
                },
            },
    {
        match self.sessions.get(session.as_str()) {
            None => Err(CeremonyError::UnknownSession(session.to_string())),
            Some(s) => group_at(&self.groups, s.init.quorum.quorum_id.as_str()),
        }
    }

    /// The share of a member in a session. The member checks it with
    /// [`crate::threshold::verify_share`] and keeps it secret.
    pub fn share_of(&self, session: &SessionId, member: &NodeId) -> (r: Result<
        MemberShare,
        CeremonyError,
    >)
        ensures
            match self.member_share(session@, member@) {
                Ok(m) => r matches Ok(x) && x@ == m,
                Err(f) => r matches Err(e) && e@ == f,
            },
    {
        match self.sessions.get(session.as_str()) {
            None => Err(CeremonyError::UnknownSession(session.to_string())),
            Some(s) => match find_index(&s.members, member.as_str()) {
                None => Err(
                    CeremonyError::Framework(
                        cat4(
                            "",
                            member.as_str(),
                            " is not a member of quorum ",
                            s.init.quorum.quorum_id.as_str(),
                        ),
                    ),
                ),
                Some(index) => share_at(
                    &self.groups,
                    s.init.quorum.quorum_id.as_str(),
                    index,
                ),
            },
        }
    }

    /// The message of a member for the first round: their nonce point for the
    /// framed statement.
    pub fn commitment_for(&self, session: &SessionId, member: &NodeId) -> (r: Result<
        Commitment,
        CeremonyError,
    >)
        ensures
            match self.member_share(session@, member@) {
                Err(f) => r matches Err(e) && e@ == f,
                Ok(share) => match nonce_point_of(
                    share,
                    self.session_at(session@)->0.message(),
                ) {
                    Err(f) => r matches Err(e) && e@ == framework("nonce point: "@, f),
                    Ok(n) => r matches Ok(c) && c.signer@ == member@ && c.transcript@ == utf8(n),
                },
            },
    {
        let share = match self.share_of(session, member) {
            Err(e) => {
                return Err(e);
            },
            Ok(m) => m,
        };
        let message = match self.sessions.get(session.as_str()) {
            None => {
                return Err(CeremonyError::UnknownSession(session.to_string()));
            },
            Some(s) => s.message(),
        };
        match nonce_point(&share, message.as_slice()) {
            Err(e) => Err(framework_error("nonce point: ", &e)),
            Ok(n) => Ok(
                Commitment {
                    signer: member.clone(),
                    transcript: copied(n.as_str().as_bytes()),
                },
            ),
        }
    }

    /// What a member contributes to a session in the second round.
    pub open spec fn member_partial(self, id: Seq<char>, member: Seq<char>) -> Result<
        PartialView,
        CeremonyErrorView,
    > {
        match self.session_at(id) {
            None => Err(CeremonyErrorView::UnknownSession(id)),
            Some(s) => if s.state != SessionState::CommitmentsCollected {
                Err(s.wrong_round(id, "build a round-2 share"@))
            } else {
                match index_in(s.members, member) {
                    None => Err(
                        CeremonyErrorView::Framework(
                            ""@ + member + " is not a member of this quorum"@,
                        ),
                    ),
                    Some(index) => match s.honest(self.entry_for(s), index) {
                        Err(e) => Err(
                            CeremonyErrorView::Framework("partial signing: "@ + e.text()),
                        ),
                        Ok(p) => Ok(p),
                    },
                }
            },
        }
    }

    /// The message of a member for the second round: their partial signature
    /// over the sum of the committed nonce points.
    pub fn share_for(&self, session: &SessionId, member: &NodeId) -> (r: Result<
        Share,
        CeremonyError,
    >)
        ensures
            match self.member_partial(session@, member@) {
                Err(f) => r matches Err(e) && e@ == f,
                Ok(p) => r matches Ok(s) && s.signer@ == member@ && s.material@
                    == partial_message(p) && partial_in(s.material@) == Some(p),
            },
    {
        match self.sessions.get(session.as_str()) {
            None => Err(CeremonyError::UnknownSession(session.to_string())),
            Some(s) => {
                if s.state != SessionState::CommitmentsCollected {
                    return Err(
                        CeremonyError::WrongRound {
                            session: session.to_string(),
                            attempted: "build a round-2 share",
                            state: s.state,
                        },
                    );
                }
                let index = match find_index(&s.members, member.as_str()) {
                    None => {
                        return Err(
                            CeremonyError::Framework(
                                cat3("", member.as_str(), " is not a member of this quorum"),
                            ),
                        );
                    },
                    Some(i) => i,
                };
                match honest_partial_at(&self.groups, s, index) {
                    Err(e) => {
                        let text = e.to_string();
                        Err(CeremonyError::Framework(cat2("partial signing: ", text.as_str())))
                    },
                    Ok(p) => Ok(Share { signer: member.clone(), material: p.encode() }),
                }
            },
        }
    }

    /// Deals the group of a quorum, unless it was dealt before.
    fn generate_for(&mut self, quorum: &QuorumSpec) -> (r: Result<(), CeremonyError>)
        requires
            quorum@.fault() is None,
        ensures
            r is Ok,
            final(self).spec_counter() == old(self).spec_counter(),
            final(self).spec_clock() == old(self).spec_clock(),
            forall|k: Seq<char>| #[trigger] final(self).session_at(k) == old(self).session_at(k),
            forall|k: Seq<char>| #[trigger]
                final(self).group_of(k) == (if k == quorum@.quorum_id && old(self).group_of(
                    k,
                ) is None {
                    Some(dealt_to(quorum@))
                } else {
                    old(self).group_of(k)
                }),
    {
        if self.groups.get(quorum.quorum_id.as_str()).is_none() {
            let seed = RealCeremony::ceremony_seed(quorum);
            assert(quorum.members@.len() == quorum@.members.len());
            match generate(seed.as_slice(), quorum.threshold, quorum.members.len()) {
                Err(e) => {
                    return Err(framework_error("threshold generation: ", &e));
                },
                Ok((group, shares)) => {
                    proof {
                        let f = coefficients(seed@, quorum.threshold as int);
                        assert(entry_dealt_by(f, group@, share_views(shares@)));
                    }
                    let dealt = DealtGroup { group, shares };
                    assert(entry_view(Some(dealt)) == Some(dealt_to(quorum@)));
                    self.groups.insert(quorum.quorum_id.as_str(), dealt);
                },
            }
        }
        Ok(())
    }
}

proof fn lemma_rounds_kept(
    before: RealCeremony,
    after: RealCeremony,
    id: Seq<char>,
    next: BridgeView,
)
    requires
        before.rounds_hold(),
        before.changes_only(after, id, next),
        next.sound(before.entry_for(next)),
    ensures
        after.rounds_hold(),
{
    assert forall|k: Seq<char>| (#[trigger] after.session_at(k)) is Some implies (
    after.session_at(k)->0).sound(after.entry_for(after.session_at(k)->0)) by {
        let s = after.session_at(k)->0;
        assert(after.entry_for(s) == before.entry_for(s));
        if k != id {
            assert(before.session_at(k) == Some(s));
        }
    }
}

proof fn lemma_dealing_keeps_rounds(
    before: RealCeremony,
    after: RealCeremony,
    quorum: QuorumSpecView,
)
    requires
        before.rounds_hold(),
        forall|k: Seq<char>| #[trigger] after.session_at(k) == before.session_at(k),
        forall|k: Seq<char>| #[trigger]
            after.group_of(k) == (if k == quorum.quorum_id && before.group_of(k) is None {
                Some(dealt_to(quorum))
            } else {
                before.group_of(k)
            }),
    ensures
        after.rounds_hold(),
{
    assert forall|k: Seq<char>| (#[trigger] after.session_at(k)) is Some implies (
    after.session_at(k)->0).sound(after.entry_for(after.session_at(k)->0)) by {
        let s = after.session_at(k)->0;
        assert(before.session_at(k) == Some(s));
        assert(s.sound(before.entry_for(s)));
        if before.entry_for(s) is None && s.committed.len() > 0 {
            assert(share_in_group(
                before.entry_for(s),
                s.init.quorum.quorum_id,
                s.committed[0],
            ) is Err);
        }
    }
}

impl CeremonyCoordinator for RealCeremony {
    type Error = CeremonyError;

    fn create_session(&mut self, init: SessionInit) -> (r: Result<SessionId, CeremonyError>)
        ensures
            ({
                let n = old(self).spec_counter().wrapping_add(1);
                let q = init@.quorum;
                let text = "real-"@ + q.quorum_id + "-"@ + decimal(n as nat);
                match q.fault() {
                    Some(f) => r matches Err(e) && e@ == framework(
                        "quorum validation failed: "@,
                        f,
                    ) && old(self).unchanged(*final(self)),
                    None => if init@.kind == CeremonyKind::Reshare || init@.kind
                        == CeremonyKind::Refresh {
                        r matches Err(e) && e@ == kind_error(init@.kind) && old(self).unchanged(
                            *final(self),
                        )
                    } else {
                        &&& final(self).spec_counter() == n
                        &&& final(self).spec_clock() == old(self).spec_clock()
                        &&& forall|k: Seq<char>| #[trigger]
                            final(self).group_of(k) == (if k == q.quorum_id && old(self).group_of(
                                k,
                            ) is None {
                                Some(dealt_to(q))
                            } else {
                                old(self).group_of(k)
                            })
                        &&& if is_session_id(text) {
                            r matches Ok(id) && id@ == trimmed(text)
                                && forall|k: Seq<char>| #[trigger]
                                final(self).session_at(k) == (if k == trimmed(text) {
                                    Some(
                                        BridgeView {
                                            init: init@,
                                            members: sorted_texts(q.members),
                                            state: SessionState::Pending,
                                            committed: Seq::empty(),
                                            nonces: Seq::empty(),
                                            partials: Seq::empty(),
                                            materials: Seq::empty(),
                                            abort: None,
                                        },
                                    )
                                } else {
                                    old(self).session_at(k)
                                })
                        } else {
                            r matches Err(e) && e@ == framework(
                                "session id: "@,
                                session_id_error(text),
                            ) && forall|k: Seq<char>| #[trigger]
                                final(self).session_at(k) == old(self).session_at(k)
                        }
                    },
                }
            }),
            old(self).rounds_hold() ==> final(self).rounds_hold(),
    {
        if let Err(e) = init.quorum.validate() {
            return Err(framework_error("quorum validation failed: ", &e));
        }
        match init.kind {
            CeremonyKind::Dkg | CeremonyKind::Sign => {},
            CeremonyKind::Reshare | CeremonyKind::Refresh => {
                return Err(
                    CeremonyError::Framework(
                        cat3(
                            "a ",
                            init.kind.name(),
                            " ceremony is not implemented in this bridge: threshold has no re-share — run a fresh Dkg (new quorum id) or use the ceremony binary",
                        ),
                    ),
                );
            },
        }
        if let Err(e) = self.generate_for(&init.quorum) {
            return Err(e);
        }
        let ghost dealt = *self;
        self.counter = self.counter.wrapping_add(1);
        assert forall|k: Seq<char>| #[trigger] self.group_of(k) == dealt.group_of(k) by {}
        assert forall|k: Seq<char>| #[trigger] self.session_at(k) == dealt.session_at(k) by {}
        proof {
            if old(self).rounds_hold() {
                lemma_dealing_keeps_rounds(*old(self), *self, init@.quorum);
            }
        }
        let n = number(self.counter);
        let text = cat4("real-", init.quorum.quorum_id.as_str(), "-", n.as_str());
        match SessionId::new(text.as_str()) {
            Err(e) => Err(framework_error("session id: ", &e)),
            Ok(id) => {
                let names = member_names(&init.quorum.members);
                let members = sort_texts(&names);
                let ghost want = BridgeView {
                    init: init@,
                    members: sorted_texts(init@.quorum.members),
                    state: SessionState::Pending,
                    committed: Seq::empty(),
                    nonces: Seq::empty(),
                    partials: Seq::empty(),
                    materials: Seq::empty(),
                    abort: None,
                };
                let session = BridgeSession {
                    init,
                    members,
                    state: SessionState::Pending,
                    committed: Vec::new(),
                    partials: Vec::new(),
                    abort: None,
                };
                proof {
                    assert(session@.committed =~= Seq::<u32>::empty());
                    assert(session@.nonces =~= Seq::<Seq<char>>::empty());
                    assert(session@.partials =~= Seq::<PartialView>::empty());
                    assert(session@.materials =~= Seq::<Seq<u8>>::empty());
                    assert(session@ == want);
                }
                let ghost before = *self;
                self.sessions.insert(id.as_str(), session);
                assert forall|k: Seq<char>| #[trigger] self.group_of(k) == before.group_of(k) by {}
                assert forall|k: Seq<char>| #[trigger]
                    self.session_at(k) == (if k == id@ {
                        Some(want)
                    } else {
                        before.session_at(k)
                    }) by {}
                proof {
                    sessions_start_sound(want, self.entry_for(want));
                    if before.rounds_hold() {
                        lemma_rounds_kept(before, *self, id@, want);
                    }
                }
                Ok(id)
            },
        }
    }

    fn submit_commitment(&mut self, session: &SessionId, commitment: Commitment) -> (r: Result<
        (),
        CeremonyError,
    >)
        ensures
            match old(self).dead(session@) {
                Some(f) => r matches Err(e) && e@ == f && old(self).unchanged(*final(self)),
                None => ({
                    let s = old(self).session_at(session@)->0;
                    let step = s.commit(
                        session@,
                        old(self).entry_for(s),
                        commitment.signer@,
                        commitment.transcript@,
                    );
                    &&& old(self).changes_only(*final(self), session@, step.0)
                    &&& match step.1 {
                        Ok(_) => r is Ok,
                        Err(f) => r matches Err(e) && e@ == f,
                    }
                }),
            },
            old(self).rounds_hold() ==> final(self).rounds_hold(),
    {
        if let Err(e) = self.live(session) {
            return Err(e);
        }
        let mut s = match self.sessions.remove(session.as_str()) {
            Some(s) => s,
            None => {
                return Err(CeremonyError::UnknownSession(session.to_string()));
            },
        };
        let r = take_commitment(&mut s, &self.groups, session, &commitment);
        self.sessions.insert(session.as_str(), s);
        proof {
            let before = old(self).session_at(session@)->0;
            let entry = old(self).entry_for(before);
            if old(self).rounds_hold() {
                messages_keep_sessions_sound(
                    before,
                    session@,
                    entry,
                    commitment.signer@,
                    commitment.transcript@,
                );
                lemma_rounds_kept(*old(self), *self, session@, s@);
            }
        }
        r
    }

    fn submit_share(&mut self, session: &SessionId, share: Share) -> (r: Result<(), CeremonyError>)
        ensures
            match old(self).dead(session@) {
                Some(f) => r matches Err(e) && e@ == f && old(self).unchanged(*final(self)),
                None => ({
                    let step = old(self).session_at(session@)->0.share(
                        session@,
                        share.signer@,
                        share.material@,
                    );
                    &&& old(self).changes_only(*final(self), session@, step.0)
                    &&& match step.1 {
                        Ok(_) => r is Ok,
                        Err(f) => r matches Err(e) && e@ == f,
                    }
                }),
            },
            old(self).rounds_hold() ==> final(self).rounds_hold(),
    {
        if let Err(e) = self.live(session) {
            return Err(e);
        }
        let mut s = match self.sessions.remove(session.as_str()) {
            Some(s) => s,
            None => {
                return Err(CeremonyError::UnknownSession(session.to_string()));
            },
        };
        let r = take_share(&mut s, session, share);
        self.sessions.insert(session.as_str(), s);
        proof {
            let before = old(self).session_at(session@)->0;
            let entry = old(self).entry_for(before);
            if old(self).rounds_hold() {
                messages_keep_sessions_sound(
                    before,
                    session@,
                    entry,
                    share.signer@,
                    share.material@,
                );
                lemma_rounds_kept(*old(self), *self, session@, s@);
            }
        }
        r
    }

    fn aggregate(&mut self, session: &SessionId) -> (r: Result<AggregatedSignature, CeremonyError>)
        ensures
            match old(self).dead(session@) {
                Some(f) => r matches Err(e) && e@ == f && old(self).unchanged(*final(self)),
                None => ({
                    let s = old(self).session_at(session@)->0;
                    let step = s.aggregated(old(self).entry_for(s));
                    &&& old(self).changes_only(*final(self), session@, step.0)
                    &&& match step.1 {
                        Ok(x) => r matches Ok(a) && a.suite == Suite::Ed25519 && a.value@ == x.0
                            && a.group_key@ == (KeyView { suite: Suite::Ed25519, bytes: x.1 })
                            && a.check(s.init.payload) is Ok,
                        Err(f) => r matches Err(e) && e@ == f,
                    }
                    &&& s.fulfilled(old(self).entry_for(s)) ==> r is Ok
                }),
            },
            old(self).rounds_hold() ==> final(self).rounds_hold(),
    {
        if let Err(e) = self.live(session) {
            return Err(e);
        }
        let mut s = match self.sessions.remove(session.as_str()) {
            Some(s) => s,
            None => {
                return Err(CeremonyError::UnknownSession(session.to_string()));
            },
        };
        let r = aggregate_session(&mut s, &self.groups);
        self.sessions.insert(session.as_str(), s);
        proof {
            let before = old(self).session_at(session@)->0;
            let entry = old(self).entry_for(before);
            if old(self).rounds_hold() {
                messages_keep_sessions_sound(
                    before,
                    session@,
                    entry,
                    Seq::empty(),
                    Seq::empty(),
                );
                lemma_rounds_kept(*old(self), *self, session@, s@);
            }
        }
        r
    }

    fn session_state(&self, session: &SessionId) -> (r: Option<SessionState>)
        ensures
            r == (match self.session_at(session@) {
                Some(s) => Some(s.state),
                None => None,
            }),
    {
        match self.sessions.get(session.as_str()) {
            Some(s) => Some(s.state),
            None => None,
        }
    }

    fn abort_proof(&self, session: &SessionId) -> (r: Option<&MisbehaviorProof>)
        ensures
            match self.session_at(session@) {
                Some(s) => r is Some == s.abort is Some && (r matches Some(p) ==> Some(p@)
                    == s.abort),
                None => r is None,
            },
    {
        match self.sessions.get(session.as_str()) {
            Some(s) => match &s.abort {
                Some(p) => Some(p),
                None => None,
            },
            None => None,
        }
    }
}

fn take_commitment(
    s: &mut BridgeSession,
    groups: &TextMap<DealtGroup>,
    session: &SessionId,
    commitment: &Commitment,
) -> (r: Result<(), CeremonyError>)
    ensures
        ({
            let step = old(s)@.commit(
                session@,
                entry_view(groups.at(old(s)@.init.quorum.quorum_id)),
                commitment.signer@,
                commitment.transcript@,
            );
            &&& final(s)@ == step.0
            &&& match step.1 {
                Ok(_) => r is Ok,
                Err(f) => r matches Err(e) && e@ == f,
            }
        }),
{
    if s.state != SessionState::Pending {
        return Err(
            CeremonyError::WrongRound {
                session: session.to_string(),
                attempted: "submit a round-1 commitment",
                state: s.state,
            },
        );
    }
    let evidence = commitment.transcript.as_slice();
    let index = match find_index(&s.members, commitment.signer.as_str()) {
        None => {
            return Err(
                s.record_abort(&commitment.signer, "commitment from non-member", evidence),
            );
        },
        Some(i) => i,
    };
    if s.has_committed(index) {
        return Err(s.record_abort(&commitment.signer, "double commitment in round 1", evidence));
    }
    let share = match share_at(groups, s.init.quorum.quorum_id.as_str(), index) {
        Err(e) => {
            return Err(e);
        },
        Ok(m) => m,
    };
    let message = s.message();
    let expected = match nonce_point(&share, message.as_slice()) {
        Err(e) => {
            return Err(framework_error("nonce point: ", &e));
        },
        Ok(n) => n,
    };
    if !same_bytes(evidence, expected.as_str().as_bytes()) {
        return Err(s.record_abort(&commitment.signer, WRONG_NONCE, evidence));
    }
    s.add_commitment(index, expected);
    Ok(())
}

fn take_share(s: &mut BridgeSession, session: &SessionId, share: Share) -> (r: Result<
    (),
    CeremonyError,
>)
    ensures
        ({
            let step = old(s)@.share(session@, share.signer@, share.material@);
            &&& final(s)@ == step.0
            &&& match step.1 {
                Ok(_) => r is Ok,
                Err(f) => r matches Err(e) && e@ == f,
            }
        }),
{
    if s.state != SessionState::CommitmentsCollected {
        return Err(
            CeremonyError::WrongRound {
                session: session.to_string(),
                attempted: "submit a round-2 share",
                state: s.state,
            },
        );
    }
    let evidence = share.material.as_slice();
    let index = match find_index(&s.members, share.signer.as_str()) {
        None => {
            return Err(s.record_abort(&share.signer, "share from non-member", evidence));
        },
        Some(i) => i,
    };
    if !s.has_committed(index) {
        return Err(
            s.record_abort(&share.signer, "share without a round-1 commitment", evidence),
        );
    }
    if s.has_partial(index) {
        return Err(s.record_abort(&share.signer, "double share in round 2", evidence));
    }
    let partial = match PartialSignature::decode(evidence) {
        None => {
            return Err(
                s.record_abort(
                    &share.signer,
                    "share material is not a threshold partial signature",
                    evidence,
                ),
            );
        },
        Some(p) => p,
    };
    if partial.index != index {
        return Err(
            s.record_abort(&share.signer, "partial claims another member's index", evidence),
        );
    }
    if !same_text(partial.nonce.as_str(), s.nonce_of(index).as_str()) {
        return Err(s.record_abort(&share.signer, UNBOUND_PARTIAL, evidence));
    }
    s.add_partial(partial, share.material);
    Ok(())
}

proof fn lemma_no_culprit(
    s: BridgeView,
    entry: Option<(GroupView, Seq<ShareView>)>,
    k: int,
)
    requires
        s.all_honest(entry),
        0 <= k <= s.partials.len(),
    ensures
        s.culprit(entry, k) == Ok::<Option<int>, CeremonyErrorView>(None),
    decreases s.partials.len() - k,
{
    if k < s.partials.len() {
        lemma_no_culprit(s, entry, k + 1);
    }
}

/// There is one way to put the same numbers in ascending order.
proof fn lemma_climbing_determined(a: Seq<u32>, b: Seq<u32>)
    requires
        climbing(a),
        climbing(b),
        a.len() == b.len(),
        forall|i: int| 0 <= i < a.len() ==> b.contains(#[trigger] a[i]),
    ensures
        a == b,
    decreases a.len(),
{
    if a.len() > 0 {
        let n = a.len() - 1;
        let x = a.drop_last();
        let y = b.drop_last();
        let at = b.index_of(a[n]);
        assert(b.contains(a[n]));
        assert(b[at] == a[n]);
        assert forall|i: int| 0 <= i < x.len() implies y.contains(#[trigger] x[i]) by {
            assert(b.contains(a[i]));
            let k = b.index_of(a[i]);
            assert(b[k] == a[i]);
            assert(a[i] < a[n]);
            assert(y[k] == a[i]);
        }
        lemma_climbing_determined(x, y);
        if at < n {
            assert(x[at] == y[at]);
            assert(a[at] < a[n]);
        }
        assert forall|i: int| 0 <= i < a.len() implies #[trigger] a[i] == b[i] by {
            if i < n {
                assert(x[i] == y[i]);
            }
        }
    }
}

/// What the members of a fulfilled session contributed combines.
proof fn lemma_fulfilled(s: BridgeView, group: GroupView, shares: Seq<ShareView>)
    requires
        s.fulfilled(Some((group, shares))),
        was_dealt(group, shares),
        nonces_read_back(s, Some((group, shares))),
    ensures
        combined(group, s.message(), s.partials) is Ok,
        unhex32_of(group.group_public) is Some,
{
    let entry = Some((group, shares));
    let f = choose|f: Seq<int>| #[trigger] entry_dealt_by(f, group, shares);
    let indices = indices_of(s.partials);
    assert forall|i: int| 0 <= i < indices.len() implies s.committed.contains(
        #[trigger] indices[i],
    ) by {
        assert(s.committed.contains(s.partials[i].index));
    }
    lemma_climbing_determined(indices, s.committed);
    let own = Seq::new(s.partials.len(), |i: int| shares[s.partials[i].index - 1]);
    assert forall|i: int| 0 <= i < own.len() implies #[trigger] own[i] == dealt_share(
        f,
        own[i].index,
    ) && own[i].index == s.partials[i].index && reads_back(
        share_scalar(own[i])->Ok_0,
        s.message(),
    ) && nonce_point_of(own[i], s.message()) == Ok::<Seq<char>, ErrorView>(s.nonces[i])
        && partial_of(group, own[i], s.message(), s.committed, s.nonces) == Ok::<
        PartialView,
        ErrorView,
    >(s.partials[i]) by {
        let index = s.partials[i].index;
        assert(nonce_reads_back(s, entry, index));
        assert(0 < index <= shares.len());
        assert(shares[index - 1] == dealt_share(f, (index - 1 + 1) as u32));
        assert(s.committed[i] == indices[i]);
    }
    assert(share_indices(own) =~= s.committed);
    assert(share_indices(own).no_duplicates());
    honest_contributions_combine(f, group, own, s.message(), s.nonces, s.partials);
}

fn aggregate_session(s: &mut BridgeSession, groups: &TextMap<DealtGroup>) -> (r:
    Result<AggregatedSignature, CeremonyError>)
    ensures
        ({
            let step = old(s)@.aggregated(
                entry_view(groups.at(old(s)@.init.quorum.quorum_id)),
            );
            &&& final(s)@ == step.0
            &&& match step.1 {
                Ok(x) => r matches Ok(a) && a.suite == Suite::Ed25519 && a.value@ == x.0
                    && a.group_key@ == (KeyView { suite: Suite::Ed25519, bytes: x.1 }) && a.check(
                    old(s)@.init.payload,
                ) is Ok,
                Err(f) => r matches Err(e) && e@ == f,
            }
            &&& old(s)@.fulfilled(entry_view(groups.at(old(s)@.init.quorum.quorum_id))) ==> r is Ok
        }),
{
    let need = s.init.quorum.threshold;
    let have = s.partials.len();
    assert(have == s@.partials.len());
    if have < need {
        return Err(CeremonyError::ThresholdNotMet { have, need });
    }
    let message = s.message();
    let partials = partials_of(&s.partials);
    let group = match group_at(groups, s.init.quorum.quorum_id.as_str()) {
        Err(e) => {
            return Err(e);
        },
        Ok(g) => g,
    };
    match combine(&group, message.as_slice(), partials.as_slice()) {
        Ok(signature) => {
            let value = match signature.to_ed25519_bytes() {
                Err(e) => {
                    return Err(framework_error("group signature encoding: ", &e));
                },
                Ok(v) => v,
            };
            let key = match unhex32(group.group_public.as_str()) {
                None => {
                    return Err(
                        CeremonyError::Framework("the group public key is not hex".to_owned()),
                    );
                },
                Some(k) => k,
            };
            s.state = SessionState::Completed;
            proof {
                let x = entry_view(groups.at(s@.init.quorum.quorum_id))->0;
                let f = choose|f: Seq<int>| #[trigger] entry_dealt_by(f, group@, x.1);
                assert(group_dealt_by(f, group@));
            }
            Ok(
                AggregatedSignature {
                    suite: Suite::Ed25519,
                    value: copied(value.as_slice()),
                    group_key: PublicKey::Ed25519(key),
                },
            )
        },
        Err(failure) => {
            let ghost entry = entry_view(groups.at(s@.init.quorum.quorum_id));
            let ghost before = s@;
            let r = blame_culprit(s, groups, &failure);
            proof {
                if before.fulfilled(entry) {
                    lemma_no_culprit(before, entry, 0);
                    lemma_fulfilled(before, (entry->0).0, (entry->0).1);
                }
            }
            r
        },
    }
}

fn blame_culprit(
    s: &mut BridgeSession,
    groups: &TextMap<DealtGroup>,
    failure: &SignatifError,
) -> (r: Result<AggregatedSignature, CeremonyError>)
    ensures
        ({
            let step = old(s)@.blame(
                entry_view(groups.at(old(s)@.init.quorum.quorum_id)),
                failure@,
            );
            &&& final(s)@ == step.0
            &&& step.1 matches Err(f) && r matches Err(e) && e@ == f
        }),
        ({
            let entry = entry_view(groups.at(old(s)@.init.quorum.quorum_id));
            old(s)@.culprit(entry, 0) == Ok::<Option<int>, CeremonyErrorView>(None)
                ==> nonces_read_back(old(s)@, entry)
        }),
{
    match find_culprit(groups, s) {
        Err(e) => {
            let text = e.to_string();
            Err(CeremonyError::Framework(cat2("culprit identification: ", text.as_str())))
        },
        Ok(None) => Err(framework_error("threshold combination failed: ", failure)),
        Ok(Some(k)) => {
            let index = s.partials[k].0.index;
            assert(s@.partials[k as int] == s.partials@[k as int].0@);
            assert(s@.materials[k as int] == s.partials@[k as int].1@);
            assert(s@.members.len() == s.members@.len());
            if 0 < index && ((index - 1) as usize) < s.members.len() {
                let offender = NodeId::listed(&s.members[(index - 1) as usize]);
                assert(offender@ == s@.members[index - 1]);
                let evidence = copied(s.partials[k].1.as_slice());
                Err(s.record_abort(&offender, FAILED_PARTIAL, evidence.as_slice()))
            } else {
                let n = number(index as u64);
                Err(
                    CeremonyError::Framework(
                        cat3("culprit index ", n.as_str(), " has no quorum member"),
                    ),
                )
            }
        },
    }
}

/// The seed of a quorum, its group and its shares do not depend on the order in
/// which the members are listed.
pub proof fn member_order_does_not_matter(a: QuorumSpecView, b: QuorumSpecView)
    requires
        a.quorum_id == b.quorum_id,
        a.threshold == b.threshold,
        a.members.to_multiset() == b.members.to_multiset(),
    ensures
        quorum_seed(a) == quorum_seed(b),
        dealt_to(a) == dealt_to(b),
{
    crate::sets::sorting_ignores_the_order(a.members, b.members);
    vstd::seq_lib::to_multiset_len(a.members);
    vstd::seq_lib::to_multiset_len(b.members);
    assert(dealt_to(a).1 =~= dealt_to(b).1);
}

/// How far a state is along.
pub open spec fn stage(state: SessionState) -> int {
    match state {
        SessionState::Pending => 0,
        SessionState::CommitmentsCollected => 1,
        SessionState::SharesCollected => 2,
        SessionState::Completed | SessionState::Expired => 3,
    }
}

/// Rounds are strict: a commitment after the first round and a share outside
/// the second are refused, and change nothing.
pub proof fn late_messages_change_nothing(
    session: BridgeView,
    id: Seq<char>,
    entry: Option<(GroupView, Seq<ShareView>)>,
    signer: Seq<char>,
    message: Seq<u8>,
)
    ensures
        session.state != SessionState::Pending ==> session.commit(id, entry, signer, message) == (
            session,
            Err::<(), CeremonyErrorView>(session.wrong_round(id, "submit a round-1 commitment"@)),
        ),
        session.state != SessionState::CommitmentsCollected ==> session.share(
            id,
            signer,
            message,
        ) == (
            session,
            Err::<(), CeremonyErrorView>(session.wrong_round(id, "submit a round-2 share"@)),
        ),
{
}

/// No message takes a session back to an earlier state.
pub proof fn sessions_only_move_forward(
    session: BridgeView,
    id: Seq<char>,
    entry: Option<(GroupView, Seq<ShareView>)>,
    signer: Seq<char>,
    message: Seq<u8>,
)
    ensures
        stage(session.commit(id, entry, signer, message).0.state) >= stage(session.state),
        stage(session.share(id, signer, message).0.state) >= stage(session.state),
        stage(session.aggregated(entry).0.state) >= stage(session.state),
{
}

/// A session of a valid quorum starts sound, whatever its group.
pub proof fn sessions_start_sound(
    session: BridgeView,
    entry: Option<(GroupView, Seq<ShareView>)>,
)
    requires
        session.init.quorum.fault() is None,
        session.state == SessionState::Pending,
        session.committed.len() == 0,
        session.nonces.len() == 0,
        session.partials.len() == 0,
    ensures
        session.sound(entry),
        session.all_honest(entry),
{
}

/// A number that a climbing list does not hold keeps it climbing in its place.
proof fn lemma_climbing_insert(s: Seq<u32>, x: u32)
    requires
        climbing(s),
        !s.contains(x),
    ensures
        climbing(s.insert(place_of(s, x), x)),
{
    let p = place_of(s, x);
    crate::threshold::lemma_place_of(s, x);
    let t = s.insert(p, x);
    assert forall|i: int, j: int| 0 <= i < j < t.len() implies #[trigger] t[i]
        < #[trigger] t[j] by {
        if p > 0 {
            assert(s.contains(s[p - 1]));
        }
        if i < p && j == p && i < p - 1 {
            assert(s[i] < s[p - 1]);
        }
    }
}

/// Messages keep a session sound: whatever members send, and when it is
/// aggregated.
pub proof fn messages_keep_sessions_sound(
    session: BridgeView,
    id: Seq<char>,
    entry: Option<(GroupView, Seq<ShareView>)>,
    signer: Seq<char>,
    message: Seq<u8>,
)
    requires
        session.sound(entry),
    ensures
        session.commit(id, entry, signer, message).0.sound(entry),
        session.share(id, signer, message).0.sound(entry),
        session.aggregated(entry).0.sound(entry),
{
    let next = session.commit(id, entry, signer, message);
    if next.1 is Ok {
        let index = index_in(session.members, signer)->0;
        let p = place_of(session.committed, index);
        crate::threshold::lemma_place_of(session.committed, index);
        lemma_climbing_insert(session.committed, index);
        assert forall|i: int| 0 <= i < next.0.committed.len() implies (share_in_group(
            entry,
            session.init.quorum.quorum_id,
            #[trigger] next.0.committed[i],
        ) matches Ok(share) && nonce_point_of(share, session.message()) == Ok::<
            Seq<char>,
            ErrorView,
        >(next.0.nonces[i])) by {
            if i < p {
                assert(next.0.committed[i] == session.committed[i]);
            } else if i > p {
                assert(next.0.committed[i] == session.committed[i - 1]);
            }
        }
    }
    let next = session.share(id, signer, message);
    if next.1 is Ok {
        let q = partial_in(message)->0;
        let indices = indices_of(session.partials);
        let p = place_of(indices, q.index);
        crate::threshold::lemma_place_of(indices, q.index);
        lemma_climbing_insert(indices, q.index);
        assert(indices_of(next.0.partials) =~= indices.insert(p, q.index));
        assert forall|i: int| 0 <= i < next.0.partials.len() implies next.0.committed.contains(
            (#[trigger] next.0.partials[i]).index,
        ) by {
            if i < p {
                assert(next.0.partials[i] == session.partials[i]);
            } else if i > p {
                assert(next.0.partials[i] == session.partials[i - 1]);
            }
        }
    }
}

/// A session that members sent nothing but what their shares give stays so with
/// one more such message; with the last of them, what it aggregates to is owed.
pub proof fn honest_messages_keep_sessions_honest(
    session: BridgeView,
    id: Seq<char>,
    entry: Option<(GroupView, Seq<ShareView>)>,
    signer: Seq<char>,
    message: Seq<u8>,
)
    requires
        session.all_honest(entry),
        session.share(id, signer, message).1 is Ok,
        session.honest(entry, index_in(session.members, signer)->0) matches Ok(p) && partial_in(
            message,
        ) == Some(p),
    ensures
        session.share(id, signer, message).0.all_honest(entry),
        session.sound(entry) && session.partials.len() + 1 == session.init.quorum.threshold && (
        entry matches Some(x) && x.0.threshold == session.init.quorum.threshold)
            ==> session.share(id, signer, message).0.fulfilled(entry),
{
    let next = session.share(id, signer, message).0;
    let q = partial_in(message)->0;
    let p = place_of(indices_of(session.partials), q.index);
    crate::threshold::lemma_place_of(indices_of(session.partials), q.index);
    assert forall|i: int| 0 <= i < next.partials.len() implies next.honest(
        entry,
        (#[trigger] next.partials[i]).index,
    ) == Ok::<PartialView, CeremonyErrorView>(next.partials[i]) by {
        if i < p {
            assert(next.partials[i] == session.partials[i]);
        } else if i > p {
            assert(next.partials[i] == session.partials[i - 1]);
        }
    }
    if session.sound(entry) {
        messages_keep_sessions_sound(session, id, entry, signer, message);
    }
}

/// Whoever is blamed in an aggregation sent something else than what their own
/// share gives.
pub proof fn only_culprits_are_blamed(
    session: BridgeView,
    entry: Option<(GroupView, Seq<ShareView>)>,
    k: int,
)
    requires
        0 <= k,
        session.culprit(entry, k) matches Ok(Some(i)),
    ensures
        session.culprit(entry, k) matches Ok(Some(i)) && k <= i < session.partials.len() && (
        session.honest(entry, session.partials[i].index) matches Ok(p) && p
            != session.partials[i]),
    decreases session.partials.len() - k,
{
    if k < session.partials.len() {
        match session.honest(entry, session.partials[k].index) {
            Ok(p) => {
                if p == session.partials[k] {
                    only_culprits_are_blamed(session, entry, k + 1);
                }
            },
            Err(_) => {},
        }
    }
}

} // verus!
