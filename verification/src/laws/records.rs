//! What journals, dossiers, frozen views, relays and manifests promise.

use vstd::prelude::*;

use crate::anchor::inclusion_check;
use crate::canon::text_field;
use crate::confium::{past_expiry, QuorumSpecView, SessionState};
use crate::declaration::{permitted, DeclarationSet, TransportMode};
use crate::digest::sha256_of;
use crate::dossier::{bound, is_sound, Dossier};
use crate::exchange::{answer, S13Outcome, S13Response};
use crate::frozen::{freeze_error, FrozenInput, FrozenView, ProjectionDescriptor, TemporalAxis};
use crate::graph::GraphView;
use crate::keyring::{is_key_id, KeyView};
use crate::laws::not_later;
use crate::laws::objects::{
    countersigned_answers_hold_at_their_place, grids_are_signed_by_their_keepers,
    messages_are_signed_by_their_senders, signs_for,
};
use crate::laws::scopes::admits_nothing;
use crate::laws::signatures::{slots_pass_when_the_key_accepts, sound_under};
use crate::manifest::{
    extension_fault, extensions_fault, AlgorithmStatus, DeploymentManifest, MigrationPhase,
};
use crate::party::{ObjectClass, PartyClass};
use crate::provenance::{coverage_of, EdgeEvidence};
use crate::rollup::rollup_check;
use crate::s13::{
    asked, authority_payload, is_bound, last_place, line_for, line_of, replayed, DecisionView,
    S13JournalEntry,
};
use crate::scope::LayerConstraint;
use crate::segments::{PolicyObject, RevealClass, SpineProof};
use crate::sets::texts;
use crate::sign::{SigningDomain, SlotView, Suite};
use crate::signed_profile::{IssuerClass, TrustGrade};
use crate::sovereign::{CoverageGrade, SovereignAttestation};
use crate::spine_anchor::SpineReceipt;
use crate::text::{is_space, trimmed, trimmed_end};
use crate::time::Timestamp;
use crate::transport::Hub;

verus! {

/// Whether an entry asks the question with a digest.
pub open spec fn asks(entry: S13JournalEntry, digest: Seq<u8>) -> bool {
    entry matches S13JournalEntry::Request(q) && sha256_of(q.request.bytes()) == digest
}

/// Whether a passport and a segment are those of the first question with a
/// digest; two empty texts where there is no such question.
pub open spec fn concerns(
    entries: Seq<S13JournalEntry>,
    digest: Seq<u8>,
    line: (Seq<char>, Seq<char>),
) -> bool {
    ||| exists|j: int|
        0 <= j < entries.len() && #[trigger] asks(entries[j], digest) && line == (
            (entries[j]->Request_0).request.subject@,
            (entries[j]->Request_0).request.segment@,
        ) && forall|m: int| 0 <= m < j ==> !#[trigger] asks(entries[m], digest)
    ||| (forall|m: int| 0 <= m < entries.len() ==> !#[trigger] asks(entries[m], digest)) && line
        == (""@, ""@)
}

proof fn lemma_asked(entries: Seq<S13JournalEntry>, digest: Seq<u8>)
    ensures
        asked(entries, digest) <==> exists|j: int|
            0 <= j < entries.len() && #[trigger] asks(entries[j], digest),
{
    if asked(entries, digest) {
        let i = choose|i: int|
            0 <= i < entries.len() && (#[trigger] entries[i] matches S13JournalEntry::Request(q)
                && q.request.spec_digest() == digest);
        assert(asks(entries[i], digest));
    }
    if exists|j: int| 0 <= j < entries.len() && #[trigger] asks(entries[j], digest) {
        let j = choose|j: int| 0 <= j < entries.len() && #[trigger] asks(entries[j], digest);
        assert(entries[j] matches S13JournalEntry::Request(q) && q.request.spec_digest()
            == digest);
    }
}

/// An answer belongs to the line of its question: the passport and the segment
/// that the first question with its digest names.
pub proof fn answers_belong_to_their_question(entries: Seq<S13JournalEntry>, digest: Seq<u8>)
    ensures
        concerns(entries, digest, line_for(entries, digest)),
    decreases entries.len(),
{
    if entries.len() > 0 {
        let short = entries.drop_last();
        let n = entries.len() - 1;
        answers_belong_to_their_question(short, digest);
        lemma_asked(short, digest);
        assert forall|j: int| 0 <= j < n implies asks(short[j], digest) == #[trigger] asks(
            entries[j],
            digest,
        ) by {}
        if asked(short, digest) {
            let j = choose|j: int|
                0 <= j < short.len() && #[trigger] asks(short[j], digest) && line_for(
                    short,
                    digest,
                ) == (
                    (short[j]->Request_0).request.subject@,
                    (short[j]->Request_0).request.segment@,
                ) && forall|m: int| 0 <= m < j ==> !#[trigger] asks(short[m], digest);
            assert(asks(entries[j], digest));
            assert forall|m: int| 0 <= m < j implies !#[trigger] asks(entries[m], digest) by {
                assert(!asks(short[m], digest));
            }
            assert(concerns(entries, digest, line_for(entries, digest)));
        } else {
            assert forall|m: int| 0 <= m < n implies !#[trigger] asks(entries[m], digest) by {
                assert(!asks(short[m], digest));
            }
            if asks(entries[n], digest) {
                assert(line_for(entries, digest) == (
                    (entries[n]->Request_0).request.subject@,
                    (entries[n]->Request_0).request.segment@,
                ));
                assert(concerns(entries, digest, line_for(entries, digest)));
            } else {
                assert(line_for(entries, digest) == (""@, ""@));
                assert(forall|m: int|
                    0 <= m < entries.len() ==> !#[trigger] asks(entries[m], digest));
                assert(concerns(entries, digest, line_for(entries, digest)));
            }
        }
    }
}

proof fn lemma_one_line(
    entries: Seq<S13JournalEntry>,
    digest: Seq<u8>,
    a: (Seq<char>, Seq<char>),
    b: (Seq<char>, Seq<char>),
)
    requires
        concerns(entries, digest, a),
        concerns(entries, digest, b),
    ensures
        a == b,
{
    if exists|m: int| 0 <= m < entries.len() && #[trigger] asks(entries[m], digest) {
        let i = choose|j: int|
            0 <= j < entries.len() && #[trigger] asks(entries[j], digest) && a == (
                (entries[j]->Request_0).request.subject@,
                (entries[j]->Request_0).request.segment@,
            ) && forall|m: int| 0 <= m < j ==> !#[trigger] asks(entries[m], digest);
        let k = choose|j: int|
            0 <= j < entries.len() && #[trigger] asks(entries[j], digest) && b == (
                (entries[j]->Request_0).request.subject@,
                (entries[j]->Request_0).request.segment@,
            ) && forall|m: int| 0 <= m < j ==> !#[trigger] asks(entries[m], digest);
        assert(i == k);
    }
}

/// Whether an entry is a countersigned answer to a question about a passport and
/// a segment.
pub open spec fn answers_in(
    all: Seq<S13JournalEntry>,
    entry: S13JournalEntry,
    line: (Seq<char>, Seq<char>),
) -> bool {
    entry matches S13JournalEntry::Countersigned(n) && concerns(
        all,
        n.signed.response.request_digest@,
        line,
    )
}

/// Whether a place is the one after the last countersigned answer in a line
/// before a position; the first place is one.
pub open spec fn next_place(
    all: Seq<S13JournalEntry>,
    i: int,
    line: (Seq<char>, Seq<char>),
    place: u64,
) -> bool {
    ||| exists|k: int|
        0 <= k < i && #[trigger] answers_in(all, all[k], line) && place == (
        all[k]->Countersigned_0).sequence + 1 && forall|m: int|
            k < m < i ==> !#[trigger] answers_in(all, all[m], line)
    ||| (forall|m: int| 0 <= m < i ==> !#[trigger] answers_in(all, all[m], line)) && place == 1
}

proof fn lemma_last_place(
    all: Seq<S13JournalEntry>,
    i: int,
    line: (Seq<char>, Seq<char>),
    place: u64,
)
    requires
        0 <= i <= all.len(),
    ensures
        next_place(all, i, line, place) <==> place == last_place(all, all.take(i), line) + 1,
    decreases i,
{
    if i > 0 {
        let n = i - 1;
        lemma_last_place(all, n, line, place);
        assert(all.take(i).drop_last() =~= all.take(n));
        assert(all.take(i).last() == all[n]);
        let here = answers_in(all, all[n], line);
        if let S13JournalEntry::Countersigned(c) = all[n] {
            let own = line_of(all, c.signed.response);
            answers_belong_to_their_question(all, c.signed.response.request_digest@);
            if here {
                lemma_one_line(all, c.signed.response.request_digest@, own, line);
            }
            assert(here == (own == line));
        }
        if here {
            if next_place(all, i, line, place) {
                if exists|k: int|
                    0 <= k < i && #[trigger] answers_in(all, all[k], line) && place == (
                    all[k]->Countersigned_0).sequence + 1 && forall|m: int|
                        k < m < i ==> !#[trigger] answers_in(all, all[m], line) {
                    let k = choose|k: int|
                        0 <= k < i && #[trigger] answers_in(all, all[k], line) && place == (
                        all[k]->Countersigned_0).sequence + 1 && forall|m: int|
                            k < m < i ==> !#[trigger] answers_in(all, all[m], line);
                    assert(k == n);
                } else {
                    assert(!answers_in(all, all[n], line));
                }
            }
        } else {
            if next_place(all, n, line, place) {
                if exists|k: int|
                    0 <= k < n && #[trigger] answers_in(all, all[k], line) && place == (
                    all[k]->Countersigned_0).sequence + 1 && forall|m: int|
                        k < m < n ==> !#[trigger] answers_in(all, all[m], line) {
                    let k = choose|k: int|
                        0 <= k < n && #[trigger] answers_in(all, all[k], line) && place == (
                        all[k]->Countersigned_0).sequence + 1 && forall|m: int|
                            k < m < n ==> !#[trigger] answers_in(all, all[m], line);
                    assert forall|m: int| k < m < i implies !#[trigger] answers_in(
                        all,
                        all[m],
                        line,
                    ) by {}
                } else {
                    assert forall|m: int| 0 <= m < i implies !#[trigger] answers_in(
                        all,
                        all[m],
                        line,
                    ) by {}
                }
            }
            if next_place(all, i, line, place) {
                if exists|k: int|
                    0 <= k < i && #[trigger] answers_in(all, all[k], line) && place == (
                    all[k]->Countersigned_0).sequence + 1 && forall|m: int|
                        k < m < i ==> !#[trigger] answers_in(all, all[m], line) {
                    let k = choose|k: int|
                        0 <= k < i && #[trigger] answers_in(all, all[k], line) && place == (
                        all[k]->Countersigned_0).sequence + 1 && forall|m: int|
                            k < m < i ==> !#[trigger] answers_in(all, all[m], line);
                    assert(k != n);
                }
            }
        }
    }
}

/// Whether a question with a digest stands before a position.
pub open spec fn asked_before(all: Seq<S13JournalEntry>, i: int, digest: Seq<u8>) -> bool {
    exists|j: int| 0 <= j < i && #[trigger] asks(all[j], digest)
}

/// Whether an entry is in order: its sender signed it; an answer comes after its
/// question; and a countersigned answer was signed by the authority with its
/// place, which is the next one in the line of its question.
pub open spec fn in_order(g: GraphView, all: Seq<S13JournalEntry>, i: int) -> bool {
    match all[i] {
        S13JournalEntry::Request(q) => signs_for(
            g,
            q.requester@,
            q.signature@,
            SigningDomain::S13Message,
            q.request.bytes(),
        ),
        S13JournalEntry::Response(a) => signs_for(
            g,
            a.response.custodian@,
            a.signature@,
            SigningDomain::S13Message,
            a.response.bytes(),
        ) && asked_before(all, i, a.response.request_digest@),
        S13JournalEntry::Countersigned(n) => signs_for(
            g,
            n.signed.response.custodian@,
            n.signed.signature@,
            SigningDomain::S13Message,
            n.signed.response.bytes(),
        ) && signs_for(
            g,
            n.authority@,
            n.authority_signature@,
            SigningDomain::S13Message,
            authority_payload(n.signed.response, n.sequence),
        ) && asked_before(all, i, n.signed.response.request_digest@) && exists|
            line: (Seq<char>, Seq<char>),
        | #[trigger]
            concerns(all, n.signed.response.request_digest@, line) && next_place(
                all,
                i,
                line,
                n.sequence,
            ),
    }
}

proof fn lemma_bound(g: GraphView, all: Seq<S13JournalEntry>, i: int)
    requires
        0 <= i < all.len(),
    ensures
        is_bound(g, all, i) <==> in_order(g, all, i),
{
    assert forall|d: Seq<u8>| #[trigger] asked(all.take(i), d) == asked_before(all, i, d) by {
        let front = all.take(i);
        lemma_asked(front, d);
        assert forall|j: int| 0 <= j < i implies asks(front[j], d) == #[trigger] asks(
            all[j],
            d,
        ) by {}
        if asked(front, d) {
            let j = choose|j: int| 0 <= j < front.len() && #[trigger] asks(front[j], d);
            assert(asks(all[j], d));
        }
        if asked_before(all, i, d) {
            let j = choose|j: int| 0 <= j < i && #[trigger] asks(all[j], d);
            assert(asks(front[j], d));
        }
    }
    match all[i] {
        S13JournalEntry::Request(q) => {
            messages_are_signed_by_their_senders(q, arbitrary(), g);
        },
        S13JournalEntry::Response(a) => {
            messages_are_signed_by_their_senders(arbitrary(), a, g);
        },
        S13JournalEntry::Countersigned(n) => {
            let digest = n.signed.response.request_digest@;
            countersigned_answers_hold_at_their_place(n, g, n.sequence);
            answers_belong_to_their_question(all, digest);
            let own = line_of(all, n.signed.response);
            lemma_last_place(all, i, own, n.sequence);
            assert(concerns(all, digest, own));
            if exists|line: (Seq<char>, Seq<char>)| #[trigger]
                concerns(all, digest, line) && next_place(all, i, line, n.sequence) {
                let line = choose|line: (Seq<char>, Seq<char>)| #[trigger]
                    concerns(all, digest, line) && next_place(all, i, line, n.sequence);
                lemma_one_line(all, digest, own, line);
            }
        },
    }
}

/// A journal replays exactly when every entry in it is in order.
pub proof fn journals_replay_in_order(g: GraphView, all: Seq<S13JournalEntry>)
    ensures
        replayed(g, all, all) is Ok <==> forall|i: int|
            0 <= i < all.len() ==> #[trigger] in_order(g, all, i),
{
    if replayed(g, all, all) is Ok {
        assert forall|i: int| 0 <= i < all.len() implies #[trigger] in_order(g, all, i) by {
            crate::s13::replayed_journals_are_bound(g, all, i);
            lemma_bound(g, all, i);
        }
    }
    if forall|i: int| 0 <= i < all.len() ==> #[trigger] in_order(g, all, i) {
        assert forall|i: int| 0 <= i < all.len() implies #[trigger] is_bound(g, all, i) by {
            assert(in_order(g, all, i));
            lemma_bound(g, all, i);
        }
        crate::s13::bound_journals_replay(g, all);
    }
}

/// The answer that an entry holds, if it holds one.
pub open spec fn answer_in(entry: S13JournalEntry) -> Option<S13Response> {
    match entry {
        S13JournalEntry::Request(_) => None,
        S13JournalEntry::Response(a) => Some(a.response),
        S13JournalEntry::Countersigned(n) => Some(n.signed.response),
    }
}

/// The decisions that a journal gives are those of its answers, each as the
/// answer states it, in their order.
pub proof fn journals_tell_every_answer(
    g: GraphView,
    all: Seq<S13JournalEntry>,
    entries: Seq<S13JournalEntry>,
)
    ensures
        replayed(g, all, entries) matches Ok(decisions) ==> decisions == entries.filter(
            |e: S13JournalEntry| answer_in(e) is Some,
        ).map_values(
            |e: S13JournalEntry|
                DecisionView {
                    request_digest: (answer_in(e)->0).request_digest@,
                    outcome: (answer_in(e)->0).outcome.spec_token(),
                    governing_policy: (answer_in(e)->0).governing_policy@,
                    governing_policy_version: (answer_in(e)->0).governing_policy_version,
                },
        ),
    decreases entries.len(),
{
    let f = |e: S13JournalEntry| answer_in(e) is Some;
    let d = |e: S13JournalEntry|
        DecisionView {
            request_digest: (answer_in(e)->0).request_digest@,
            outcome: (answer_in(e)->0).outcome.spec_token(),
            governing_policy: (answer_in(e)->0).governing_policy@,
            governing_policy_version: (answer_in(e)->0).governing_policy_version,
        };
    reveal(Seq::filter);
    if entries.len() > 0 {
        let short = entries.drop_last();
        journals_tell_every_answer(g, all, short);
        if f(entries.last()) {
            assert(short.filter(f).push(entries.last()).map_values(d) =~= short.filter(
                f,
            ).map_values(d).push(d(entries.last())));
        }
    } else {
        assert(entries.filter(f).map_values(d) =~= Seq::empty());
    }
}

/// A policy answers a verifier that it lists, or any if it lists all, as it
/// reveals, and denies every other.
pub proof fn policies_answer_listed_verifiers(policy: PolicyObject, verifier: Seq<char>)
    ensures
        ({
            let listed = exists|i: int|
                0 <= i < policy.verifiers@.len() && ((#[trigger] policy.verifiers@[i])@ == verifier
                    || policy.verifiers@[i]@ == "any-verifier"@);
            let told = answer(policy, verifier);
            &&& told == S13Outcome::Deny <==> !listed
            &&& told == S13Outcome::Permit <==> listed && policy.reveal == RevealClass::Open
            &&& told == S13Outcome::PermitPaired <==> listed && policy.reveal
                == RevealClass::PairingGated
            &&& told == S13Outcome::AttestationOffer <==> listed && policy.reveal
                == RevealClass::OriginSealed
            &&& told == S13Outcome::Escalation <==> listed && policy.reveal == RevealClass::Escrowed
        }),
{
    let all = texts(policy.verifiers@);
    let any = "any-verifier"@;
    if all.contains(verifier) {
        assert(policy.verifiers@[all.index_of(verifier)]@ == verifier);
    }
    if all.contains(any) {
        assert(policy.verifiers@[all.index_of(any)]@ == any);
    }
    if exists|i: int|
        0 <= i < policy.verifiers@.len() && ((#[trigger] policy.verifiers@[i])@ == verifier
            || policy.verifiers@[i]@ == any) {
        let i = choose|i: int|
            0 <= i < policy.verifiers@.len() && ((#[trigger] policy.verifiers@[i])@ == verifier
                || policy.verifiers@[i]@ == any);
        assert(all[i] == verifier || all[i] == any);
    }
}

/// Whether a segment's commitment is proved to be under a root.
pub open spec fn proved(p: SpineProof, root: Seq<u8>) -> bool {
    inclusion_check(
        sha256_of(text_field(p.segment_id@) + p.commitment@),
        p.inclusion,
        root,
    ) is Ok
}

/// Whether an attestation names a version of a policy that a dossier holds.
pub open spec fn names_a_policy(x: SovereignAttestation, d: Dossier) -> bool {
    exists|i: int|
        0 <= i < d.policies@.len() && (#[trigger] d.policies@[i]).policy.policy_id@
            == x.statement.governing_policy@ && d.policies@[i].policy.version
            == x.statement.governing_policy_version
}

/// A dossier checks out exactly when every policy was signed by its authority,
/// the spine by its custodian, every proof leads to the spine's root, every
/// attestation verifies and names a policy of the dossier in its version, a
/// receipt is for this spine, and every entry of the journal is in order.
pub proof fn dossiers_check_out_when_all_is_bound(d: Dossier, g: GraphView)
    ensures
        d.check(g) is Ok <==> {
            &&& forall|i: int|
                0 <= i < d.policies@.len() ==> signs_for(
                    g,
                    (#[trigger] d.policies@[i]).policy.authority@,
                    d.policies@[i].signature@,
                    SigningDomain::SegmentPolicy,
                    d.policies@[i].policy.bytes(),
                )
            &&& signs_for(
                g,
                d.spine.custodian@,
                d.spine.signature@,
                SigningDomain::SpineRoot,
                sha256_of(
                    vstd::bytes::spec_u64_to_le_bytes(d.spine.spine.version) + d.spine.spine.root@,
                ),
            )
            &&& forall|i: int|
                0 <= i < d.proofs@.len() ==> proved(#[trigger] d.proofs@[i], d.spine.spine.root@)
            &&& forall|i: int|
                0 <= i < d.attestations@.len() ==> (#[trigger] d.attestations@[i]).check(g) is Ok
                    && names_a_policy(d.attestations@[i], d)
            &&& d.receipt matches Some(x) ==> x.spine_digest@ == sha256_of(
                vstd::bytes::spec_u64_to_le_bytes(d.spine.spine.version) + d.spine.spine.root@,
            )
            &&& forall|i: int|
                0 <= i < d.journal.entries@.len() ==> #[trigger] in_order(
                    g,
                    d.journal.entries@,
                    i,
                )
        },
{
    assert forall|i: int| 0 <= i < d.policies@.len() implies (
    #[trigger] d.policies@[i]).check(g) is Ok == signs_for(
        g,
        d.policies@[i].policy.authority@,
        d.policies@[i].signature@,
        SigningDomain::SegmentPolicy,
        d.policies@[i].policy.bytes(),
    ) by {
        grids_are_signed_by_their_keepers(d.policies@[i], d.spine, g);
    }
    grids_are_signed_by_their_keepers(arbitrary(), d.spine, g);
    journals_replay_in_order(g, d.journal.entries@);
    assert forall|i: int| 0 <= i < d.attestations@.len() implies bound(
        #[trigger] d.attestations@[i],
        d.policies@,
    ) == names_a_policy(d.attestations@[i], d) by {
        let x = d.attestations@[i];
        if bound(x, d.policies@) {
            let k = choose|k: int|
                0 <= k < d.policies@.len() && x.binds((#[trigger] d.policies@[k]).policy);
            assert(d.policies@[k].policy.policy_id@ == x.statement.governing_policy@);
        }
        if names_a_policy(x, d) {
            let k = choose|k: int|
                0 <= k < d.policies@.len() && (#[trigger] d.policies@[k]).policy.policy_id@
                    == x.statement.governing_policy@ && d.policies@[k].policy.version
                    == x.statement.governing_policy_version;
            assert(x.binds(d.policies@[k].policy));
        }
    }
    if d.check(g) is Ok {
        crate::dossier::checked_dossiers_are_sound(d, g);
        assert forall|i: int| 0 <= i < d.proofs@.len() implies proved(
            #[trigger] d.proofs@[i],
            d.spine.spine.root@,
        ) by {
            assert(d.proofs@[i].holds(d.spine.spine.root@));
        }
        assert forall|i: int| 0 <= i < d.attestations@.len() implies (
        #[trigger] d.attestations@[i]).check(g) is Ok && names_a_policy(d.attestations@[i], d) by {
            assert(bound(d.attestations@[i], d.policies@));
        }
    }
    if is_sound(d, g) {
        crate::dossier::sound_dossiers_check_out(d, g);
    }
}

/// Whether the lens of a view has a channel of an input's name for its segment,
/// and the spine commits to the hash of its bytes for that segment.
pub open spec fn explained(v: FrozenView, input: FrozenInput) -> bool {
    (v.bundle.spine.spine.commitments.at(input.segment@) matches Some(c) && c@ == sha256_of(
        input.bytes@,
    )) && exists|i: int|
        0 <= i < v.lens.input_segments@.len() && (#[trigger] v.lens.input_segments@[i]).0@
            == input.name@ && v.lens.input_segments@[i].1@ == input.segment@
}

/// A frozen view checks out exactly when its dossier does and every input is
/// explained by its lens and committed to by its spine.
pub proof fn frozen_views_hold_what_was_committed(v: FrozenView, g: GraphView)
    ensures
        v.check(g) is Ok <==> v.bundle.check(g) is Ok && forall|i: int|
            0 <= i < v.inputs@.len() ==> explained(v, #[trigger] v.inputs@[i]),
        v.check(g) is Ok ==> v.check(g) == v.bundle.check(g),
{
    let errors = v.input_errors();
    assert forall|i: int| 0 <= i < v.inputs@.len() implies (#[trigger] errors[i]) is None
        == explained(v, v.inputs@[i]) by {}
    if v.check(g) is Ok {
        assert forall|i: int| 0 <= i < v.inputs@.len() implies explained(
            v,
            #[trigger] v.inputs@[i],
        ) by {
            crate::lemma_no_error(errors, i);
            assert(errors[i] is None);
        }
    }
    if forall|i: int| 0 <= i < v.inputs@.len() ==> explained(v, #[trigger] v.inputs@[i]) {
        assert forall|i: int| 0 <= i < errors.len() implies (#[trigger] errors[i]) is None by {
            assert(explained(v, v.inputs@[i]));
        }
        crate::lemma_all_clear(errors);
    }
}

/// A projection can be frozen exactly when it is at one moment and comes with
/// instructions.
pub proof fn only_moments_with_instructions_freeze(d: ProjectionDescriptor, instructions: int)
    requires
        instructions >= 0,
    ensures
        freeze_error(d, instructions) is None <==> d.temporal == TemporalAxis::PointInTime
            && instructions >= 1,
{
}

/// An edge is verified directly exactly when its contents were seen, attested
/// exactly when an attestation that verifies speaks for it, and unavailable
/// otherwise.
pub proof fn edges_are_graded_by_their_evidence(e: EdgeEvidence, g: GraphView)
    ensures
        coverage_of(e, g) == CoverageGrade::VerifiedDirect <==> e is Open,
        coverage_of(e, g) == CoverageGrade::AttestedByAuthority <==> (
        e matches EdgeEvidence::Sealed { attestation } && attestation.check(g) is Ok),
        coverage_of(e, g) == CoverageGrade::ExplicitlyUnavailable <==> e is Missing || (
        e matches EdgeEvidence::Sealed { attestation } && attestation.check(g) is Err),
{
}

/// A hub relays exactly when both sides permit the exchange over a hub, each
/// toward the other.
pub proof fn hubs_relay_when_both_sides_permit(
    hub: Hub,
    from: Seq<char>,
    to: Seq<char>,
    class: Seq<char>,
    declarations: DeclarationSet,
)
    ensures
        hub.refusal(from, to, class, declarations) is None <==> permitted(
            declarations.declarations@,
            from,
            to,
            class,
            TransportMode::Hub,
        ) is Permitted && permitted(
            declarations.declarations@,
            to,
            from,
            class,
            TransportMode::Hub,
        ) is Permitted,
{
}

proof fn lemma_trimmed_end(s: Seq<char>)
    ensures
        trimmed_end(s).len() == 0 <==> forall|i: int| 0 <= i < s.len() ==> is_space(#[trigger] s[i]),
    decreases s.len(),
{
    if s.len() > 0 && is_space(s.last()) {
        let short = s.drop_last();
        lemma_trimmed_end(short);
        if trimmed_end(s).len() == 0 {
            assert forall|i: int| 0 <= i < s.len() implies is_space(#[trigger] s[i]) by {
                if i < short.len() {
                    assert(is_space(short[i]));
                }
            }
        }
        if forall|i: int| 0 <= i < s.len() ==> is_space(#[trigger] s[i]) {
            assert forall|i: int| 0 <= i < short.len() implies is_space(#[trigger] short[i]) by {
                assert(is_space(s[i]));
            }
        }
    } else if s.len() > 0 {
        assert(!is_space(s[s.len() - 1]));
    }
}

/// A text is blank, nothing being left of it without the white space at its
/// ends, exactly when it is white space throughout.
pub proof fn blank_texts_are_white_space(s: Seq<char>)
    ensures
        trimmed(s).len() == 0 <==> forall|i: int| 0 <= i < s.len() ==> is_space(#[trigger] s[i]),
    decreases s.len(),
{
    if s.len() > 0 && is_space(s[0]) {
        let rest = s.skip(1);
        blank_texts_are_white_space(rest);
        if forall|i: int| 0 <= i < rest.len() ==> is_space(#[trigger] rest[i]) {
            assert forall|i: int| 0 <= i < s.len() implies is_space(#[trigger] s[i]) by {
                if i > 0 {
                    assert(is_space(rest[i - 1]));
                }
            }
        }
        if forall|i: int| 0 <= i < s.len() ==> is_space(#[trigger] s[i]) {
            assert forall|i: int| 0 <= i < rest.len() implies is_space(#[trigger] rest[i]) by {
                assert(is_space(s[i + 1]));
            }
        }
    } else {
        lemma_trimmed_end(s);
    }
}

/// Whether a text has a character that is not white space.
pub open spec fn has_ink(s: Seq<char>) -> bool {
    exists|i: int| 0 <= i < s.len() && !is_space(#[trigger] s[i])
}

/// Whether a suite is one of the three classical ones.
pub open spec fn classical(s: Suite) -> bool {
    s == Suite::Ed25519 || s == Suite::EcdsaP256 || s == Suite::Sm2
}

/// Whether a scope extension is named and lists a value if it lists.
pub open spec fn extends(name: Seq<char>, constraint: LayerConstraint) -> bool {
    has_ink(name) && !admits_nothing(constraint@)
}

proof fn lemma_extension(name: Seq<char>, constraint: LayerConstraint)
    ensures
        extension_fault(name, constraint) is None <==> extends(name, constraint),
{
    blank_texts_are_white_space(name);
}

proof fn lemma_extensions(names: Seq<Seq<char>>, constraints: Seq<LayerConstraint>, n: int)
    ensures
        extensions_fault(names, constraints, n) is None <==> forall|i: int|
            0 <= i < n ==> #[trigger] extends(names[i], constraints[i]),
    decreases n,
{
    if n > 0 {
        lemma_extensions(names, constraints, n - 1);
        lemma_extension(names[n - 1], constraints[n - 1]);
        if forall|i: int| 0 <= i < n ==> #[trigger] extends(names[i], constraints[i]) {
            assert(extends(names[n - 1], constraints[n - 1]));
        }
    }
}

/// A manifest is coherent exactly when its version and its operator are not
/// blank, some suite is active and none is active and deprecated at once, the
/// active suites are mixed in the two hybrid phases and free of classical ones
/// in the post-quantum phase, and every scope extension is named and lists a
/// value if it lists.
pub proof fn coherent_manifests(m: DeploymentManifest)
    ensures
        m.fault() is None <==> {
            &&& has_ink(m.version@)
            &&& has_ink(m.operator@)
            &&& exists|s: Suite| #[trigger] m.active_algorithms@.contains(s)
            &&& forall|s: Suite| #[trigger]
                m.active_algorithms@.contains(s) ==> !m.deprecated_algorithms@.contains(s)
            &&& (m.migration_phase == MigrationPhase::HybridCoSigned || m.migration_phase
                == MigrationPhase::HybridComposite) ==> (exists|s: Suite| #[trigger]
                m.active_algorithms@.contains(s) && classical(s)) && (exists|s: Suite| #[trigger]
                m.active_algorithms@.contains(s) && !classical(s))
            &&& m.migration_phase == MigrationPhase::PostQuantum ==> forall|s: Suite| #[trigger]
                m.active_algorithms@.contains(s) ==> !classical(s)
            &&& forall|i: int|
                0 <= i < m.scope_extensions.keys().len() ==> #[trigger] extends(
                    m.scope_extensions.keys()[i],
                    m.scope_extensions.values()[i],
                )
        },
{
    let active = m.active_algorithms@;
    let overlap = active.intersect(m.deprecated_algorithms@);
    blank_texts_are_white_space(m.version@);
    blank_texts_are_white_space(m.operator@);
    assert(has_ink(m.version@) <==> trimmed(m.version@).len() > 0);
    assert(has_ink(m.operator@) <==> trimmed(m.operator@).len() > 0);
    lemma_extensions(
        m.scope_extensions.keys(),
        m.scope_extensions.values(),
        m.scope_extensions.keys().len() as int,
    );
    assert forall|s: Suite| classical(s) == !#[trigger] s.post_quantum() by {}
    if active != Set::<Suite>::empty() {
        assert(exists|s: Suite| #[trigger] active.contains(s)) by {
            if forall|s: Suite| !#[trigger] active.contains(s) {
                assert(active =~= Set::<Suite>::empty());
            }
        }
    }
    if overlap != Set::<Suite>::empty() {
        assert(exists|s: Suite| #[trigger] active.contains(s) && m.deprecated_algorithms@.contains(s))
            by {
            if forall|s: Suite| #[trigger]
                active.contains(s) ==> !m.deprecated_algorithms@.contains(s) {
                assert(overlap =~= Set::<Suite>::empty());
            }
        }
    } else {
        assert forall|s: Suite| #[trigger] active.contains(s) implies !m.deprecated_algorithms@.contains(
            s,
        ) by {
            assert(!overlap.contains(s));
        }
    }
}

/// Which classes of parties may sign which kinds of objects.
pub proof fn the_signing_matrix(party: PartyClass, object: ObjectClass)
    ensures
        party.may_sign().contains(object) <==> match object {
            ObjectClass::SegmentPolicy => party == PartyClass::Government,
            ObjectClass::SpineRoot => party == PartyClass::Manufacturer || party
                == PartyClass::Operator,
            ObjectClass::Profile => party == PartyClass::InternationalBody || party
                == PartyClass::Manufacturer,
            ObjectClass::S13Message => party == PartyClass::Manufacturer || party
                == PartyClass::Verifier || party == PartyClass::Operator,
            ObjectClass::SovereignAttestation => party == PartyClass::ConformityBody || party
                == PartyClass::UpdateActor,
            ObjectClass::MasterListWitness => party == PartyClass::Government || party
                == PartyClass::InternationalBody || party == PartyClass::AccreditationAuthority,
            ObjectClass::Accreditation => party == PartyClass::Government || party
                == PartyClass::AccreditationAuthority,
            ObjectClass::InteropDeclaration => party == PartyClass::Operator,
            ObjectClass::HubRelay => party == PartyClass::Operator,
        },
{
    let row = party.may_sign();
    if row.len() > 0 {
        assert(row.contains(row[0]));
    }
    if row.len() > 1 {
        assert(row.contains(row[1]));
    }
    if row.len() > 2 {
        assert(row.contains(row[2]));
    }
    if row.len() > 3 {
        assert(row.contains(row[3]));
    }
}

/// A quorum is sound exactly when its threshold is at least one and at most the
/// number of its members, and no member is listed twice.
pub proof fn quorums_fit_their_members(q: QuorumSpecView)
    ensures
        q.fault() is None <==> 1 <= q.threshold <= q.members.len() && forall|i: int, j: int|
            0 <= i < j < q.members.len() ==> #[trigger] q.members[i] != #[trigger] q.members[j],
{
    q.members.lemma_cardinality_of_set();
    if q.members.to_set().len() == q.members.len() {
        q.members.lemma_no_dup_set_cardinality();
    }
    if forall|i: int, j: int|
        0 <= i < j < q.members.len() ==> #[trigger] q.members[i] != #[trigger] q.members[j] {
        assert(q.members.no_duplicates());
        q.members.unique_seq_to_set();
    }
}

/// A session is past its expiry exactly when the clock is set, it has an expiry,
/// the clock is later than that, and the session is not complete.
pub proof fn sessions_expire_after_their_moment(
    clock: Option<Timestamp>,
    expires_at: Option<Timestamp>,
    state: SessionState,
)
    ensures
        past_expiry(clock, expires_at, state) <==> (clock matches Some(now) && (
        expires_at matches Some(end) && !not_later(now, end))) && state != SessionState::Completed,
{
}

/// A carried signature of a roll-up passes exactly when its key id, without the
/// white space around it, is one, and the pinned key accepts it for the body.
pub proof fn rollups_pass_under_the_pinned_key(
    suite: Suite,
    key_id: Seq<char>,
    signature: Option<Seq<u8>>,
    body: Seq<u8>,
    anchor: KeyView,
)
    ensures
        rollup_check(suite, key_id, signature, body, anchor) is Ok <==> is_key_id(trimmed(key_id))
            && sound_under(
            SlotView { suite, key_id: trimmed(key_id), signature },
            SigningDomain::RollupAttestation,
            body,
            anchor,
        ),
{
    slots_pass_when_the_key_accepts(
        SlotView { suite, key_id: trimmed(key_id), signature },
        SigningDomain::RollupAttestation,
        body,
        anchor,
    );
}

/// A receipt holds exactly when the operator signed its tree head and the
/// spine's digest is proved to be under the head's root.
pub proof fn receipts_hold_under_a_signed_head(x: SpineReceipt, operator: KeyView)
    ensures
        x.check(operator) is Ok <==> sound_under(
            x.head.signature@,
            SigningDomain::TreeHead,
            x.head.bytes(),
            operator,
        ) && inclusion_check(x.spine_digest@, x.inclusion, x.head.root@) is Ok,
{
    slots_pass_when_the_key_accepts(
        x.head.signature@,
        SigningDomain::TreeHead,
        x.head.bytes(),
        operator,
    );
}

/// A suite is active exactly when it is listed as active, deprecated exactly
/// when it is listed as deprecated only, and not listed otherwise.
pub proof fn suites_stand_as_they_are_listed(m: DeploymentManifest, s: Suite)
    ensures
        m.status(s) == AlgorithmStatus::Active <==> m.active_algorithms@.contains(s),
        m.status(s) == AlgorithmStatus::Deprecated <==> m.deprecated_algorithms@.contains(s)
            && !m.active_algorithms@.contains(s),
        m.status(s) == AlgorithmStatus::NotListed <==> !m.deprecated_algorithms@.contains(s)
            && !m.active_algorithms@.contains(s),
{
}

/// The stronger the issuer of a profile, the stronger the grade that judgments
/// under it can reach: law and treaty reach the strongest, and below them each
/// class of issuer reaches a grade of its own.
pub proof fn grades_rise_with_the_issuer(class: IssuerClass, a: TrustGrade, b: TrustGrade)
    ensures
        class == IssuerClass::Law || class == IssuerClass::Treaty <==> class.ceiling()
            == TrustGrade::Regulatory,
        class == IssuerClass::Consensus <==> class.ceiling() == TrustGrade::MarketPractice,
        class == IssuerClass::Attestation <==> class.ceiling() == TrustGrade::ThirdParty,
        class == IssuerClass::Declaration <==> class.ceiling() == TrustGrade::SelfDeclared,
        a.rank() == b.rank() <==> a == b,
        TrustGrade::SelfDeclared.rank() < TrustGrade::ThirdParty.rank()
            < TrustGrade::MarketPractice.rank() < TrustGrade::Regulatory.rank(),
{
}

} // verus!
