//! What the ledger of distrust promises.

use vstd::prelude::*;

use crate::laws::{inside, not_later};
use crate::lineage::{ancestors_of, is_ancestor, ProvenanceGraph};
use crate::revoke::{
    hits_issuer, hits_passport, in_order, key_standing_under, source_hits, taint_of, taints_cascade,
    taints_under, withdrawn_in, IssuanceIndex, ReasonView, RevocationView, StandingView,
    SubjectView, WithdrawalView,
};
use crate::scope::ConditionView;
use crate::taint::{any_voids, lemma_no_repeats_members, KnownTaint, TaintKind, TaintView};
use crate::time::Timestamp;

verus! {

/// Whether a reason acts back: misissuance, fraud, or an authority that was
/// compromised throughout the window.
pub open spec fn acts_back(reason: ReasonView) -> bool {
    match reason {
        ReasonView::Misissuance => true,
        ReasonView::FraudulentIssuance => true,
        ReasonView::AuthorityCompromised { .. } => true,
        ReasonView::KeyCompromise { .. } => false,
        ReasonView::Cessation => false,
        ReasonView::Supersession { .. } => false,
        ReasonView::AffiliationChange => false,
    }
}

/// Whether a declaration had been made by a cutoff, if there is one.
pub open spec fn declared_by_then(r: RevocationView, cutoff: Option<Timestamp>) -> bool {
    match cutoff {
        None => true,
        Some(t) => not_later(r.declared_at, t),
    }
}

/// The standing of a key at a moment: void exactly when a declaration against
/// the key that acts back has the moment in its window, suspended exactly when
/// only others have, and valid exactly when none has. The reason and the window
/// are those of such a declaration, and the first of its kind decides.
pub proof fn keys_stand_by_the_windows(
    revocations: Seq<RevocationView>,
    key_id: Seq<char>,
    at: Timestamp,
    cutoff: Option<Timestamp>,
)
    ensures
        ({
            let standing = key_standing_under(revocations, key_id, at, cutoff);
            let hit = |i: int|
                0 <= i < revocations.len() && revocations[i].subject == SubjectView::Key(key_id)
                    && declared_by_then(revocations[i], cutoff) && inside(
                    revocations[i].window,
                    at,
                );
            &&& standing is VoidAbInitio <==> exists|i: int| #[trigger]
                hit(i) && acts_back(revocations[i].reason)
            &&& standing is Valid <==> forall|i: int| !#[trigger] hit(i)
            &&& standing matches StandingView::VoidAbInitio { reason, window } ==> exists|i: int|
                #[trigger] hit(i) && acts_back(revocations[i].reason) && window
                    == revocations[i].window && reason == revocations[i].reason.token() && forall|
                    j: int,
                | 0 <= j < i && #[trigger] hit(j) ==> !acts_back(revocations[j].reason)
            &&& standing matches StandingView::SuspendedFrom { reason, from } ==> exists|i: int|
                #[trigger] hit(i) && !acts_back(revocations[i].reason) && from
                    == revocations[i].window.from && reason == revocations[i].reason.token()
                    && forall|j: int| 0 <= j < i ==> !#[trigger] hit(j)
        }),
    decreases revocations.len(),
{
    let hit = |i: int|
        0 <= i < revocations.len() && revocations[i].subject == SubjectView::Key(key_id)
            && declared_by_then(revocations[i], cutoff) && inside(revocations[i].window, at);
    if revocations.len() == 0 {
        assert forall|i: int| !#[trigger] hit(i) by {}
    } else {
        let short = revocations.drop_last();
        let n = revocations.len() - 1;
        let below = |i: int|
            0 <= i < short.len() && short[i].subject == SubjectView::Key(key_id)
                && declared_by_then(short[i], cutoff) && inside(short[i].window, at);
        keys_stand_by_the_windows(short, key_id, at, cutoff);
        assert forall|i: int| i != n implies #[trigger] hit(i) == below(i) by {
            if 0 <= i < n {
                assert(short[i] == revocations[i]);
            }
        }
        assert(hit(n) || !hit(n));
        let before = key_standing_under(short, key_id, at, cutoff);
        let after = key_standing_under(revocations, key_id, at, cutoff);
        if after == before && before is VoidAbInitio {
            let i = choose|i: int| #[trigger]
                below(i) && acts_back(short[i].reason) && before == (StandingView::VoidAbInitio {
                    reason: short[i].reason.token(),
                    window: short[i].window,
                }) && forall|j: int|
                    0 <= j < i && #[trigger] below(j) ==> !acts_back(short[j].reason);
            assert(hit(i));
            assert forall|j: int| 0 <= j < i && #[trigger] hit(j) implies !acts_back(
                revocations[j].reason,
            ) by {
                assert(below(j));
            }
        }
        if after == before && before is SuspendedFrom {
            let i = choose|i: int| #[trigger]
                below(i) && !acts_back(short[i].reason) && before == (StandingView::SuspendedFrom {
                    reason: short[i].reason.token(),
                    from: short[i].window.from,
                }) && forall|j: int| 0 <= j < i ==> !#[trigger] below(j);
            assert(hit(i));
            assert forall|j: int| 0 <= j < i implies !#[trigger] hit(j) by {
                assert(!below(j));
            }
        }
        if exists|i: int| #[trigger] hit(i) && acts_back(revocations[i].reason) {
            let i = choose|i: int| #[trigger] hit(i) && acts_back(revocations[i].reason);
            if i < n {
                assert(below(i) && acts_back(short[i].reason));
            }
        }
        if exists|i: int| #[trigger] below(i) && acts_back(short[i].reason) {
            let i = choose|i: int| #[trigger] below(i) && acts_back(short[i].reason);
            assert(hit(i) && acts_back(revocations[i].reason));
        }
        if !(before is Valid) {
            let i = choose|i: int| #[trigger] below(i);
            assert(hit(i));
        }
        if after != before {
            assert(hit(n));
            assert forall|j: int| 0 <= j < n && #[trigger] hit(j) implies !acts_back(
                revocations[j].reason,
            ) && (before is Valid ==> false) by {
                assert(below(j));
            }
        }
    }
}

/// The taint that a declaration leaves on a passport: its kind is that of the
/// reason, and it carries the window exactly when the reason acts back.
pub open spec fn leaves(r: RevocationView, source: Seq<char>, t: TaintView) -> bool {
    &&& t.source == source
    &&& t.at == r.declared_at
    &&& t.reason == r.reason.token()
    &&& t.window == (if acts_back(r.reason) {
        Some(r.window)
    } else {
        None
    })
    &&& t.kind == TaintKind::Known(
        match r.reason {
            ReasonView::KeyCompromise { .. } => KnownTaint::Compromised,
            ReasonView::Cessation => KnownTaint::Revoked,
            ReasonView::Supersession { .. } => KnownTaint::Revoked,
            ReasonView::AffiliationChange => KnownTaint::Revoked,
            ReasonView::Misissuance => KnownTaint::Misissued,
            ReasonView::AuthorityCompromised { .. } => KnownTaint::Misissued,
            ReasonView::FraudulentIssuance => KnownTaint::Fraud,
        },
    )
}

/// Whether a declaration falls on a passport that was issued at a moment by a
/// key, or whose issuance is not recorded. Against the key, and against the
/// passport where it acts back, it falls on what was issued inside its window;
/// against the passport from now on, on the passport whenever it was issued.
/// Where no issuance is recorded, the moment of the declaration stands for it.
pub open spec fn falls_on(
    r: RevocationView,
    source: Seq<char>,
    issued: Option<(Timestamp, Seq<char>)>,
) -> bool {
    match issued {
        Some((moment, key)) => (r.subject == SubjectView::Key(key) && inside(r.window, moment)) || (
        r.subject == SubjectView::Passport(source) && (inside(r.window, moment) || !acts_back(
            r.reason,
        ))),
        None => r.subject == SubjectView::Passport(source) && (inside(r.window, r.declared_at)
            || !acts_back(r.reason)),
    }
}

/// A taint is in force on a passport exactly when some known declaration that
/// left it falls on the passport, or on one that went into the passport.
pub proof fn taints_follow_issuance_and_ancestry(
    revocations: Seq<RevocationView>,
    passport: Seq<char>,
    issuers: IssuanceIndex,
    provenance: ProvenanceGraph,
    cutoff: Option<Timestamp>,
    t: TaintView,
)
    ensures
        taints_under(revocations, passport, issuers, provenance, cutoff).contains(t) <==> (
        t.source == passport || is_ancestor(provenance.spec_edges(), passport, t.source)) && (
        exists|i: int|
            0 <= i < revocations.len() && leaves(#[trigger] revocations[i], t.source, t)
                && declared_by_then(revocations[i], cutoff) && falls_on(
                revocations[i],
                t.source,
                issuers.issued(t.source),
            )),
{
    taints_cascade(revocations, passport, issuers, provenance, cutoff, t);
    let issued = issuers.issued(t.source);
    assert forall|i: int| 0 <= i < revocations.len() implies (t == taint_of(
        #[trigger] revocations[i],
        t.source,
    ) && (hits_passport(revocations[i], t.source, issued, cutoff) || hits_issuer(
        revocations[i],
        issued,
        cutoff,
    ))) == (leaves(revocations[i], t.source, t) && declared_by_then(revocations[i], cutoff)
        && falls_on(revocations[i], t.source, issued)) by {
        if leaves(revocations[i], t.source, t) {
            assert(t == taint_of(revocations[i], t.source));
        }
    }
}

/// A declaration against a passport that acts back voids it exactly by the
/// moment of its issuance: where that is recorded, the moment of the
/// declaration plays no part.
pub proof fn backward_declarations_go_by_the_issuance(
    revocations: Seq<RevocationView>,
    i: int,
    passport: Seq<char>,
    issuers: IssuanceIndex,
    provenance: ProvenanceGraph,
    moment: Timestamp,
    key: Seq<char>,
    t: TaintView,
)
    requires
        0 <= i < revocations.len(),
        revocations[i].subject == SubjectView::Passport(passport),
        acts_back(revocations[i].reason),
        issuers.issued(passport) == Some((moment, key)),
        leaves(revocations[i], passport, t),
    ensures
        taints_under(revocations, passport, issuers, provenance, None).contains(t) <==> inside(
            revocations[i].window,
            moment,
        ),
{
    taints_follow_issuance_and_ancestry(revocations, passport, issuers, provenance, None, t);
    let c = taints_under(revocations, passport, issuers, provenance, None).contains(t);
    if c {
        let k = choose|k: int|
            0 <= k < revocations.len() && leaves(#[trigger] revocations[k], t.source, t)
                && declared_by_then(revocations[k], None) && falls_on(
                revocations[k],
                t.source,
                issuers.issued(t.source),
            );
        assert(t.window == Some(revocations[i].window));
        assert(revocations[k].window == revocations[i].window);
    }
    if inside(revocations[i].window, moment) {
        assert(leaves(revocations[i], t.source, t));
    }
}

/// Whether a passport was void by what had been declared by a cutoff: some
/// declaration that acts back falls on it, or on one that went into it.
pub open spec fn void_by(
    revocations: Seq<RevocationView>,
    passport: Seq<char>,
    issuers: IssuanceIndex,
    provenance: ProvenanceGraph,
    cutoff: Option<Timestamp>,
) -> bool {
    exists|i: int, source: Seq<char>|
        0 <= i < revocations.len() && acts_back(revocations[i].reason) && declared_by_then(
            revocations[i],
            cutoff,
        ) && #[trigger] falls_on(revocations[i], source, issuers.issued(source)) && (source
            == passport || is_ancestor(provenance.spec_edges(), passport, source))
}

/// A passport is void from the start exactly when a declaration that acts back
/// falls on it or on something that went into it.
pub proof fn voiding_follows_issuance_and_ancestry(
    revocations: Seq<RevocationView>,
    passport: Seq<char>,
    issuers: IssuanceIndex,
    provenance: ProvenanceGraph,
    cutoff: Option<Timestamp>,
)
    ensures
        any_voids(taints_under(revocations, passport, issuers, provenance, cutoff)) <==> void_by(
            revocations,
            passport,
            issuers,
            provenance,
            cutoff,
        ),
{
    let all = taints_under(revocations, passport, issuers, provenance, cutoff);
    if any_voids(all) {
        let k = choose|k: int| 0 <= k < all.len() && (#[trigger] all[k]).kind.voids();
        let t = all[k];
        assert(all.contains(t));
        taints_follow_issuance_and_ancestry(revocations, passport, issuers, provenance, cutoff, t);
        let i = choose|i: int|
            0 <= i < revocations.len() && leaves(#[trigger] revocations[i], t.source, t)
                && declared_by_then(revocations[i], cutoff) && falls_on(
                revocations[i],
                t.source,
                issuers.issued(t.source),
            );
        assert(acts_back(revocations[i].reason));
        assert(falls_on(revocations[i], t.source, issuers.issued(t.source)));
    }
    if void_by(revocations, passport, issuers, provenance, cutoff) {
        let (i, source) = choose|i: int, source: Seq<char>|
            0 <= i < revocations.len() && acts_back(revocations[i].reason) && declared_by_then(
                revocations[i],
                cutoff,
            ) && #[trigger] falls_on(revocations[i], source, issuers.issued(source)) && (source
                == passport || is_ancestor(provenance.spec_edges(), passport, source));
        let t = taint_of(revocations[i], source);
        assert(leaves(revocations[i], source, t));
        taints_follow_issuance_and_ancestry(revocations, passport, issuers, provenance, cutoff, t);
        assert(all.contains(t));
        assert(all[all.index_of(t)].kind.voids());
    }
}

/// A condition counts as withdrawn from a node at a moment exactly when the
/// ledger holds its withdrawal from that very node with the moment in its
/// window.
pub proof fn withdrawals_name_node_and_window(
    withdrawals: Seq<WithdrawalView>,
    node: Seq<char>,
    now: Timestamp,
    c: ConditionView,
)
    ensures
        withdrawn_in(withdrawals, node, now).contains(c) <==> exists|i: int|
            0 <= i < withdrawals.len() && (#[trigger] withdrawals[i]).node == node
                && withdrawals[i].condition == c && inside(withdrawals[i].window, now),
    decreases withdrawals.len(),
{
    if withdrawals.len() > 0 {
        let short = withdrawals.drop_last();
        let n = withdrawals.len() - 1;
        let front = withdrawn_in(short, node, now);
        let all = withdrawn_in(withdrawals, node, now);
        withdrawals_name_node_and_window(short, node, now, c);
        if front.contains(c) {
            let i = choose|i: int|
                0 <= i < short.len() && (#[trigger] short[i]).node == node && short[i].condition
                    == c && inside(short[i].window, now);
            assert(withdrawals[i].node == node);
            assert(all[front.index_of(c)] == c);
        }
        if all.contains(c) && !front.contains(c) {
            let k = all.index_of(c);
            if k < front.len() {
                assert(front[k] == c);
            }
            assert(withdrawals[n].condition == c);
        }
        if exists|i: int|
            0 <= i < withdrawals.len() && (#[trigger] withdrawals[i]).node == node
                && withdrawals[i].condition == c && inside(withdrawals[i].window, now) {
            let i = choose|i: int|
                0 <= i < withdrawals.len() && (#[trigger] withdrawals[i]).node == node
                    && withdrawals[i].condition == c && inside(withdrawals[i].window, now);
            if i < n {
                assert(short[i].node == node);
            } else {
                assert(all[front.len() as int] == c);
            }
        }
    }
}

/// A reason acts back exactly when it is one of the three that do; only those
/// need a quorum, and only their taints void.
pub proof fn three_reasons_act_back(reason: ReasonView)
    ensures
        reason.retroactive() == acts_back(reason),
        reason.taint_kind().voids() == acts_back(reason),
{
}

/// No taint is told twice.
pub proof fn taints_are_told_once(
    revocations: Seq<RevocationView>,
    passport: Seq<char>,
    issuers: IssuanceIndex,
    provenance: ProvenanceGraph,
    known_by: Option<Timestamp>,
)
    ensures
        taints_under(revocations, passport, issuers, provenance, known_by).no_duplicates(),
{
    let all = in_order(ancestors_of(provenance.spec_edges(), passport).insert(passport));
    lemma_no_repeats_members(source_hits(revocations, issuers, all, known_by));
}

} // verus!
