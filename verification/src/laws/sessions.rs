//! What the sessions of a ceremony promise: which messages are taken, what
//! they change, and when a round closes.

use vstd::bytes::spec_u64_to_le_bytes;
use vstd::prelude::*;

use crate::bytes::utf8;
use crate::confium::{
    is_session_id, AggregatedSignature, CeremonyErrorView, QuorumSpecView, SessionState,
};
use crate::confium::bridge::{
    climbing, concatenated, first_at, index_in, indices_of, position_of, quorum_seed, BridgeView,
    RealCeremony, SEED_TAG,
};
use crate::confium::mock::{MockCeremony, MockView};
use crate::keyring::key_id_of;
use crate::laws::not_later;
use crate::laws::signatures::{slots_pass_when_the_key_accepts, sound_under};
use crate::merkle::collide;
use crate::sets::sorted_texts;
use crate::sign::{SigningDomain, SlotView};
use crate::text::{is_graphic, trimmed};
use crate::threshold::{
    combined, ed25519_bytes_of, nonce_point_of, place_of, unhex32_of, GroupView, PartialView,
    ShareView,
};
use crate::threshold::material::partial_in;
use crate::ErrorView;

verus! {

/// Whether a member has a number: one more than the first position of their
/// name.
pub open spec fn seat(members: Seq<Seq<char>>, name: Seq<char>, index: u32) -> bool {
    1 <= index <= members.len() && members[index - 1] == name && forall|j: int|
        0 <= j < index - 1 ==> #[trigger] members[j] != name
}

proof fn lemma_first_at(s: Seq<Seq<char>>, x: Seq<char>)
    ensures
        first_at(s, x) is None <==> !s.contains(x),
        first_at(s, x) matches Some(i) ==> 0 <= i < s.len() && s[i] == x && forall|j: int|
            0 <= j < i ==> #[trigger] s[j] != x,
    decreases s.len(),
{
    if s.len() > 0 {
        let short = s.drop_last();
        let n = s.len() - 1;
        lemma_first_at(short, x);
        match first_at(short, x) {
            Some(i) => {
                assert(s[i] == x);
                assert forall|j: int| 0 <= j < i implies #[trigger] s[j] != x by {
                    assert(short[j] != x);
                }
            },
            None => {
                assert forall|j: int| 0 <= j < n implies #[trigger] s[j] != x by {
                    assert(short[j] == s[j]);
                }
                if s[n] == x {
                    assert(s.contains(x));
                }
            },
        }
    }
}

/// Members are numbered from one in the order of the list; who is not a member
/// has no number.
pub proof fn members_are_numbered_from_one(
    members: Seq<Seq<char>>,
    name: Seq<char>,
    index: u32,
)
    requires
        members.len() <= u32::MAX,
    ensures
        index_in(members, name) == Some(index) <==> seat(members, name, index),
        index_in(members, name) is None <==> !members.contains(name),
{
    lemma_first_at(members, name);
    if let Some(i) = first_at(members, name) {
        if seat(members, name, index) {
            assert(members[index - 1] == name);
            assert(members[i] == name);
            assert(i == index - 1);
        }
    } else if seat(members, name, index) {
        assert(members.contains(members[index - 1]));
    }
}

proof fn lemma_position(s: Seq<u32>, x: u32)
    requires
        s.contains(x),
    ensures
        0 <= position_of(s, x) < s.len(),
        s[position_of(s, x)] == x,
    decreases s.len(),
{
    let i = s.index_of(x);
    if s.last() != x {
        assert(s.drop_last()[i] == x);
        lemma_position(s.drop_last(), x);
    }
}

/// What a member commits to: the nonce point that their share gives for the
/// statement.
pub open spec fn owes(
    s: BridgeView,
    entry: Option<(GroupView, Seq<ShareView>)>,
    index: u32,
    nonce: Seq<char>,
) -> bool {
    entry matches Some(x) && 1 <= index <= x.1.len() && nonce_point_of(x.1[index - 1], s.message())
        == Ok::<Seq<char>, ErrorView>(nonce)
}

/// A commitment is taken exactly in the first round, from a member that has not
/// committed, whose transcript is the nonce point that they owe. Then the
/// member's number and nonce are added and nothing else changes but the round,
/// which closes exactly when the threshold is reached.
pub proof fn commitments_are_taken_once_from_members(
    s: BridgeView,
    id: Seq<char>,
    entry: Option<(GroupView, Seq<ShareView>)>,
    signer: Seq<char>,
    transcript: Seq<u8>,
)
    requires
        s.members.len() <= u32::MAX,
        s.nonces.len() == s.committed.len(),
    ensures
        ({
            let (t, told) = s.commit(id, entry, signer, transcript);
            &&& told is Ok <==> s.state == SessionState::Pending && exists|
                index: u32,
                nonce: Seq<char>,
            |
                seat(s.members, signer, index) && !s.committed.contains(index) && #[trigger] owes(
                    s,
                    entry,
                    index,
                    nonce,
                ) && transcript == utf8(nonce)
            &&& told is Ok ==> exists|at: int, index: u32, nonce: Seq<char>|
                0 <= at <= s.committed.len() && seat(s.members, signer, index) && #[trigger] owes(
                    s,
                    entry,
                    index,
                    nonce,
                ) && t.committed == #[trigger] s.committed.insert(at, index) && t.nonces
                    == s.nonces.insert(at, nonce)
            &&& told is Ok ==> t.state == (if s.committed.len() + 1 >= s.init.quorum.threshold {
                SessionState::CommitmentsCollected
            } else {
                SessionState::Pending
            })
            &&& told is Err ==> t.state == s.state && t.committed == s.committed && t.nonces
                == s.nonces
            &&& t.init == s.init && t.members == s.members && t.partials == s.partials
                && t.materials == s.materials
            &&& told matches Err(CeremonyErrorView::Misbehavior(p)) ==> t.abort == Some(p)
                && p.offender == signer && p.evidence == transcript
            &&& !(told matches Err(CeremonyErrorView::Misbehavior(_))) ==> t.abort == s.abort
            &&& s.state == SessionState::Pending && !s.members.contains(signer) ==> (
            told matches Err(CeremonyErrorView::Misbehavior(_)))
        }),
{
    let (t, told) = s.commit(id, entry, signer, transcript);
    let found = index_in(s.members, signer);
    if found is Some {
        members_are_numbered_from_one(s.members, signer, found->0);
    } else {
        members_are_numbered_from_one(s.members, signer, 0);
    }
    assert forall|index: u32, nonce: Seq<char>|
        seat(s.members, signer, index) && #[trigger] owes(s, entry, index, nonce) implies found
        == Some(index) by {
        members_are_numbered_from_one(s.members, signer, index);
    }
    if told is Ok {
        let index = found->0;
        let nonce = nonce_point_of((entry->0).1[index - 1], s.message())->Ok_0;
        let at = place_of(s.committed, index);
        crate::threshold::lemma_place_of(s.committed, index);
        assert(owes(s, entry, index, nonce));
        assert(t.committed == s.committed.insert(at, index));
    }
}

/// Whether a partial signature is bound to a commitment: its member committed,
/// and to the nonce that it names.
pub open spec fn bound_to_commitment(s: BridgeView, p: PartialView) -> bool {
    exists|k: int|
        0 <= k < s.committed.len() && #[trigger] s.committed[k] == p.index && s.nonces[k] == p.nonce
}

/// A share is taken exactly in the second round, from a member that committed
/// and has not shared, if it is a partial signature in the member's own number
/// over the nonce that the member committed to. Then it is added and nothing
/// else changes but the round, which closes exactly when the threshold is
/// reached.
pub proof fn shares_are_taken_once_from_committed_members(
    s: BridgeView,
    id: Seq<char>,
    signer: Seq<char>,
    material: Seq<u8>,
)
    requires
        s.members.len() <= u32::MAX,
        climbing(s.committed),
        s.materials.len() == s.partials.len(),
    ensures
        ({
            let (t, told) = s.share(id, signer, material);
            &&& told is Ok <==> s.state == SessionState::CommitmentsCollected && (partial_in(
                material,
            ) matches Some(p) && seat(s.members, signer, p.index) && bound_to_commitment(s, p)
                && forall|i: int|
                0 <= i < s.partials.len() ==> (#[trigger] s.partials[i]).index != p.index)
            &&& told is Ok ==> exists|at: int|
                0 <= at <= s.partials.len() && t.partials == #[trigger] s.partials.insert(
                    at,
                    partial_in(material)->0,
                ) && t.materials == s.materials.insert(at, material)
            &&& told is Ok ==> t.state == (if s.partials.len() + 1 >= s.init.quorum.threshold {
                SessionState::SharesCollected
            } else {
                SessionState::CommitmentsCollected
            })
            &&& told is Err ==> t.state == s.state && t.partials == s.partials && t.materials
                == s.materials
            &&& t.init == s.init && t.members == s.members && t.committed == s.committed
                && t.nonces == s.nonces
            &&& told matches Err(CeremonyErrorView::Misbehavior(p)) ==> t.abort == Some(p)
                && p.offender == signer && p.evidence == material
            &&& !(told matches Err(CeremonyErrorView::Misbehavior(_))) ==> t.abort == s.abort
        }),
{
    let (t, told) = s.share(id, signer, material);
    let found = index_in(s.members, signer);
    let all = indices_of(s.partials);
    if found is Some {
        members_are_numbered_from_one(s.members, signer, found->0);
    } else {
        members_are_numbered_from_one(s.members, signer, 0);
    }
    if let Some(p) = partial_in(material) {
        members_are_numbered_from_one(s.members, signer, p.index);
        if s.committed.contains(p.index) {
            lemma_position(s.committed, p.index);
            let k = position_of(s.committed, p.index);
            assert(s.committed[k] == p.index);
            assert forall|j: int| 0 <= j < s.committed.len() && #[trigger] s.committed[j]
                == p.index implies j == k by {}
        }
        if bound_to_commitment(s, p) {
            let k = choose|k: int|
                0 <= k < s.committed.len() && #[trigger] s.committed[k] == p.index && s.nonces[k]
                    == p.nonce;
            assert(s.committed.contains(s.committed[k]));
        }
        assert(all.contains(p.index) <==> exists|i: int|
            0 <= i < s.partials.len() && (#[trigger] s.partials[i]).index == p.index) by {
            if all.contains(p.index) {
                assert(s.partials[all.index_of(p.index)].index == p.index);
            }
            if exists|i: int|
                0 <= i < s.partials.len() && (#[trigger] s.partials[i]).index == p.index {
                let i = choose|i: int|
                    0 <= i < s.partials.len() && (#[trigger] s.partials[i]).index == p.index;
                assert(all[i] == p.index);
            }
        }
        if told is Ok {
            let at = place_of(all, p.index);
            crate::threshold::lemma_place_of(all, p.index);
            assert(t.partials == s.partials.insert(at, p));
        }
    }
}

/// A session is aggregated only with as many shares as the threshold asks for,
/// and then gives the combined signature with the group's key, completes, and
/// keeps all messages. With fewer it says how many there are and are needed.
pub proof fn aggregation_needs_the_threshold(
    s: BridgeView,
    entry: Option<(GroupView, Seq<ShareView>)>,
)
    ensures
        ({
            let (t, told) = s.aggregated(entry);
            &&& told is Ok <==> s.partials.len() >= s.init.quorum.threshold && (
            entry matches Some(x) && (combined(x.0, s.message(), s.partials) matches Ok(g)
                && ed25519_bytes_of(g) is Ok) && unhex32_of(x.0.group_public) is Some)
            &&& told matches Ok((value, key)) ==> t.state == SessionState::Completed && unhex32_of(
                (entry->0).0.group_public,
            ) == Some(key) && (combined((entry->0).0, s.message(), s.partials) matches Ok(g)
                && ed25519_bytes_of(g) == Ok::<Seq<u8>, ErrorView>(value))
            &&& told is Err ==> t.state == s.state
            &&& s.partials.len() < s.init.quorum.threshold ==> told == Err::<
                (Seq<u8>, Seq<u8>),
                CeremonyErrorView,
            >(
                CeremonyErrorView::ThresholdNotMet {
                    have: s.partials.len(),
                    need: s.init.quorum.threshold as nat,
                },
            )
            &&& t.init == s.init && t.members == s.members && t.committed == s.committed
                && t.nonces == s.nonces && t.partials == s.partials && t.materials == s.materials
        }),
{
}

/// A session takes messages exactly when it exists and the clock, if it is set,
/// is not past its expiry, if it has one, unless it is complete.
pub proof fn sessions_take_messages_until_they_expire(
    c: RealCeremony,
    m: MockCeremony,
    id: Seq<char>,
)
    ensures
        c.dead(id) is None <==> (c.session_at(id) matches Some(s) && (s.state
            == SessionState::Completed || (c.spec_clock() matches Some(now) ==> (
        s.init.expires_at matches Some(end) ==> not_later(now, end))))),
        m.dead(id) is None <==> (m.session(id) matches Some(s) && (s.state
            == SessionState::Completed || (m.spec_clock() matches Some(now) ==> (
        s.init.expires_at matches Some(end) ==> not_later(now, end))))),
{
}

/// In a rehearsal a commitment is taken exactly in the first round from a member
/// that has not committed, a share exactly in the second from one that committed
/// and has not shared; each adds its sender, and closes the round exactly when
/// the threshold is reached.
pub proof fn rehearsals_take_each_message_once(
    s: MockView,
    id: Seq<char>,
    signer: Seq<char>,
    body: Seq<u8>,
)
    requires
        s.committed.finite(),
        s.shared.finite(),
    ensures
        ({
            let (t, told) = s.commit(id, signer, body);
            &&& told is Ok <==> s.state == SessionState::Pending && s.init.quorum.members.contains(
                signer,
            ) && !s.committed.contains(signer)
            &&& told is Ok ==> t.committed == s.committed.insert(signer) && t.state == (
            if s.committed.len() + 1 >= s.init.quorum.threshold {
                SessionState::CommitmentsCollected
            } else {
                SessionState::Pending
            })
            &&& told is Err ==> t.committed == s.committed && t.state == s.state
            &&& t.init == s.init && t.shared == s.shared
            &&& told matches Err(CeremonyErrorView::Misbehavior(p)) ==> p.offender == signer
                && p.evidence == body && t.abort == Some(p)
            &&& !(told matches Err(CeremonyErrorView::Misbehavior(_))) ==> t.abort == s.abort
        }),
        ({
            let (t, told) = s.share(id, signer, body);
            &&& told is Ok <==> s.state == SessionState::CommitmentsCollected
                && s.committed.contains(signer) && !s.shared.contains(signer)
            &&& told is Ok ==> t.shared == s.shared.insert(signer) && t.state == (if s.shared.len()
                + 1 >= s.init.quorum.threshold {
                SessionState::SharesCollected
            } else {
                SessionState::CommitmentsCollected
            })
            &&& told is Err ==> t.shared == s.shared && t.state == s.state
            &&& t.init == s.init && t.committed == s.committed
            &&& told matches Err(CeremonyErrorView::Misbehavior(p)) ==> p.offender == signer
                && p.evidence == body && t.abort == Some(p)
            &&& !(told matches Err(CeremonyErrorView::Misbehavior(_))) ==> t.abort == s.abort
        }),
{
}

proof fn lemma_culprit(
    s: BridgeView,
    entry: Option<(GroupView, Seq<ShareView>)>,
    k: int,
)
    requires
        0 <= k,
    ensures
        s.culprit(entry, k) matches Ok(Some(i)) ==> k <= i < s.partials.len() && (s.honest(
            entry,
            s.partials[i].index,
        ) matches Ok(p) && p != s.partials[i]) && forall|j: int|
            k <= j < i ==> s.honest(entry, (#[trigger] s.partials[j]).index) == Ok::<
                PartialView,
                CeremonyErrorView,
            >(s.partials[j]),
        s.culprit(entry, k) matches Ok(None) ==> forall|j: int|
            k <= j < s.partials.len() ==> s.honest(entry, (#[trigger] s.partials[j]).index) == Ok::<
                PartialView,
                CeremonyErrorView,
            >(s.partials[j]),
    decreases s.partials.len() - k,
{
    if k < s.partials.len() {
        lemma_culprit(s, entry, k + 1);
    }
}

/// Whoever is blamed when an aggregation fails sent something else than their
/// own share gives, and is the first in order who did; the message that they
/// sent is the evidence.
pub proof fn the_first_culprit_is_blamed(
    s: BridgeView,
    entry: Option<(GroupView, Seq<ShareView>)>,
)
    ensures
        s.aggregated(entry).1 matches Err(CeremonyErrorView::Misbehavior(p)) ==> s.aggregated(
            entry,
        ).0.abort == Some(p) && exists|k: int|
            0 <= k < s.partials.len() && p.offender == s.members[(
            #[trigger] s.partials[k]).index - 1] && (s.honest(entry, s.partials[k].index) matches Ok(
                q,
            ) && q != s.partials[k]) && (k < s.materials.len() ==> p.evidence == s.materials[k])
                && forall|j: int|
                0 <= j < k ==> s.honest(entry, (#[trigger] s.partials[j]).index) == Ok::<
                    PartialView,
                    CeremonyErrorView,
                >(s.partials[j]),
{
    lemma_culprit(s, entry, 0);
    if let Err(CeremonyErrorView::Misbehavior(p)) = s.aggregated(entry).1 {
        let k = (s.culprit(entry, 0)->Ok_0)->0;
        assert(p.offender == s.members[s.partials[k].index - 1]);
    }
}

/// What a ceremony puts out passes exactly when the group key accepts it as the
/// signature of a slot over the statement in the quorum's domain.
pub proof fn aggregates_pass_under_the_group_key(a: AggregatedSignature, payload: Seq<u8>)
    requires
        a.suite == a.group_key@.suite,
        a.suite.refusal() is None,
        a.value@.len() == a.suite.spec_signature_len(),
    ensures
        a.check(payload) is Ok <==> sound_under(
            SlotView {
                suite: a.suite,
                key_id: key_id_of(a.group_key@),
                signature: Some(a.value@),
            },
            SigningDomain::Quorum,
            payload,
            a.group_key@,
        ),
{
    slots_pass_when_the_key_accepts(
        SlotView {
            suite: a.suite,
            key_id: key_id_of(a.group_key@),
            signature: Some(a.value@),
        },
        SigningDomain::Quorum,
        payload,
        a.group_key@,
    );
}

/// A session id has 1 to 64 printing characters, the white space around it not
/// counted.
pub proof fn session_ids_are_short_print(raw: Seq<char>)
    ensures
        is_session_id(raw) <==> 1 <= trimmed(raw).len() <= 64 && forall|i: int|
            0 <= i < trimmed(raw).len() ==> is_printing(#[trigger] trimmed(raw)[i]),
{
    let t = trimmed(raw);
    assert forall|i: int| 0 <= i < t.len() implies is_graphic(#[trigger] t[i]) == is_printing(
        t[i],
    ) by {
        lemma_printing(t[i]);
    }
}

/// Whether a character prints, between the exclamation mark and the tilde.
pub open spec fn is_printing(c: char) -> bool {
    '!' <= c <= '~'
}

proof fn lemma_printing(c: char)
    ensures
        is_graphic(c) == is_printing(c),
{
}

/// Quorums of the same members that differ in their id or their threshold have
/// the same seed only if the digest collides.
pub proof fn quorums_are_dealt_apart(a: QuorumSpecView, b: QuorumSpecView)
    requires
        a.members == b.members,
        a.quorum_id != b.quorum_id || a.threshold != b.threshold,
    ensures
        quorum_seed(a) == quorum_seed(b) ==> exists|x: Seq<u8>, y: Seq<u8>| #[trigger]
            collide(x, y),
{
    let tag = utf8(SEED_TAG@);
    let p = spec_u64_to_le_bytes(a.threshold as u64);
    let q = spec_u64_to_le_bytes(b.threshold as u64);
    let (i, j) = (utf8(a.quorum_id), utf8(b.quorum_id));
    let rest = concatenated(sorted_texts(a.members));
    let x = tag + p + i + rest;
    let y = tag + q + j + rest;
    if x == y {
        let n = tag.len() as int;
        vstd::bytes::lemma_auto_spec_u64_to_from_le_bytes();
        assert(p.len() == 8 && q.len() == 8);
        assert(p =~= x.subrange(n, n + 8));
        assert(q =~= y.subrange(n, n + 8));
        assert(x.len() == n + 8 + i.len() + rest.len());
        assert(y.len() == n + 8 + j.len() + rest.len());
        assert(i =~= x.subrange(n + 8, n + 8 + i.len()));
        assert(j =~= y.subrange(n + 8, n + 8 + i.len()));
        vstd::utf8::encode_utf8_decode_utf8(a.quorum_id);
        vstd::utf8::encode_utf8_decode_utf8(b.quorum_id);
        assert(false);
    }
    if quorum_seed(a) == quorum_seed(b) {
        assert(collide(x, y));
    }
}

} // verus!
