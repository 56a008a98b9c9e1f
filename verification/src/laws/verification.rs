//! What the verification of an artifact promises: when it is accepted, and what
//! is reported of each signature.

use vstd::prelude::*;

use crate::graph::{
    directory_agrees, directory_of, owner_of, registered_in, CredentialView, GraphView, NodeView,
};
use crate::graph::search::Search;
use crate::keyring::KeyView;
use crate::laws::inside;
use crate::laws::revocation::{
    void_by, voiding_follows_issuance_and_ancestry, withdrawals_name_node_and_window,
};
use crate::laws::scopes::{meets, recorded, the_first_unmet_condition_is_found};
use crate::laws::signatures::{
    in_both, policies_count_allowed_suites_only, slots_pass_when_the_key_accepts, sound,
    sound_under, suites_verify_by_sound_slots, verdicts_follow_the_signature, wholly_signed_in,
};
use crate::laws::trust::{
    carries, directories_give_the_last_registration, has_key, keys_resolve_to_anchored_roots,
};
use crate::lineage::ProvenanceGraph;
use crate::revoke::{
    key_standing_under, taints_under, withdrawn_in, IssuanceIndex, RevocationView, WithdrawalView,
};
use crate::scope::{first_failing, ConditionView, RequestView};
use crate::sign::{Acceptance, CoSignatureView, CompositeView, SigningDomain, SlotView, Suite};
use crate::taint::{any_voids, KnownTaint, TaintKind, TaintView};
use crate::time::Timestamp;
use crate::verify::{
    any_crypto, carried, conditions_check, first_among, first_voiding, first_withdrawn, slot_counts,
    some_slot_counts, trust_path, trust_views, PathView, SignatifVerdict, SlotTrustView,
    VerifierView,
};
use crate::ErrorView;

verus! {

/// An artifact is accepted exactly when the policy accepts, for some slot the
/// signature verified, a trust path was found and its conditions hold, the
/// record passed or was degraded in whatever way, and the artifact is not void.
pub proof fn acceptance_takes_four_things(v: SignatifVerdict)
    ensures
        v.is_accepted() <==> (v.trust.acceptance matches Acceptance::Accepted { .. }) && (
        exists|i: int|
            0 <= i < v.trust.slots@.len() && (#[trigger] v.trust.slots@[i]).crypto is Ok
                && v.trust.slots@[i].path is Ok && v.trust.slots@[i].conditions is Ok) && (
        v.verdict.outcome is Pass || v.verdict.outcome is Degraded)
            && !v.verdict.current_state.voids_ab_initio,
{
    let raw = v.trust.slots@;
    let all = trust_views(raw);
    if some_slot_counts(all) {
        let i = choose|i: int| 0 <= i < all.len() && slot_counts(#[trigger] all[i]);
        assert(raw[i].crypto is Ok && raw[i].path is Ok && raw[i].conditions is Ok);
    }
    if exists|i: int|
        0 <= i < raw.len() && (#[trigger] raw[i]).crypto is Ok && raw[i].path is Ok
            && raw[i].conditions is Ok {
        let i = choose|i: int|
            0 <= i < raw.len() && (#[trigger] raw[i]).crypto is Ok && raw[i].path is Ok
                && raw[i].conditions is Ok;
        assert(slot_counts(all[i]));
    }
}

/// Whether a record passes or merely degrades makes no difference to acceptance,
/// nor does the kind of a degradation; a failed record is never accepted.
pub proof fn degraded_records_may_be_accepted(a: SignatifVerdict, b: SignatifVerdict)
    requires
        a.trust == b.trust,
        a.verdict.current_state.voids_ab_initio == b.verdict.current_state.voids_ab_initio,
        a.verdict.outcome is Pass,
    ensures
        b.verdict.outcome is Degraded ==> a.is_accepted() == b.is_accepted(),
        b.verdict.outcome is Fail ==> !b.is_accepted(),
{
    acceptance_takes_four_things(a);
    acceptance_takes_four_things(b);
}

/// Whether the ledger holds, at a moment, a withdrawal of a condition from a
/// node.
pub open spec fn withdrawn_from(
    withdrawals: Seq<WithdrawalView>,
    node: Seq<char>,
    condition: ConditionView,
    now: Timestamp,
) -> bool {
    exists|w: int|
        0 <= w < withdrawals.len() && (#[trigger] withdrawals[w]).node == node
            && withdrawals[w].condition == condition && inside(withdrawals[w].window, now)
}

/// Whether a condition that a credential carries was withdrawn from the child
/// that it was granted to.
pub open spec fn grant_withdrawn(
    withdrawals: Seq<WithdrawalView>,
    credential: CredentialView,
    now: Timestamp,
) -> bool {
    exists|i: int|
        0 <= i < credential.scope.conditions.len() && withdrawn_from(
            withdrawals,
            credential.child,
            #[trigger] credential.scope.conditions[i],
            now,
        )
}

proof fn lemma_first_among(conditions: Seq<ConditionView>, others: Seq<ConditionView>)
    ensures
        first_among(conditions, others) is None <==> forall|i: int|
            0 <= i < conditions.len() ==> !others.contains(#[trigger] conditions[i]),
        first_among(conditions, others) matches Some(c) ==> exists|i: int|
            0 <= i < conditions.len() && #[trigger] conditions[i] == c && others.contains(c)
                && forall|j: int| 0 <= j < i ==> !others.contains(#[trigger] conditions[j]),
    decreases conditions.len(),
{
    if conditions.len() > 0 {
        let short = conditions.drop_last();
        let n = conditions.len() - 1;
        lemma_first_among(short, others);
        match first_among(short, others) {
            Some(c) => {
                let i = choose|i: int|
                    0 <= i < short.len() && #[trigger] short[i] == c && others.contains(c)
                        && forall|j: int| 0 <= j < i ==> !others.contains(#[trigger] short[j]);
                assert(conditions[i] == c);
                assert forall|j: int| 0 <= j < i implies !others.contains(
                    #[trigger] conditions[j],
                ) by {
                    assert(!others.contains(short[j]));
                }
            },
            None => {
                assert forall|j: int| 0 <= j < n implies !others.contains(
                    #[trigger] conditions[j],
                ) by {
                    assert(!others.contains(short[j]));
                }
                assert(others.contains(conditions[n]) || !others.contains(conditions[n]));
            },
        }
    }
}

proof fn lemma_grant(withdrawals: Seq<WithdrawalView>, credential: CredentialView, now: Timestamp)
    ensures
        first_among(
            credential.scope.conditions,
            withdrawn_in(withdrawals, credential.child, now),
        ) is Some <==> grant_withdrawn(withdrawals, credential, now),
        first_among(
            credential.scope.conditions,
            withdrawn_in(withdrawals, credential.child, now),
        ) matches Some(c) ==> credential.scope.conditions.contains(c) && withdrawn_from(
            withdrawals,
            credential.child,
            c,
            now,
        ),
{
    let cs = credential.scope.conditions;
    let gone = withdrawn_in(withdrawals, credential.child, now);
    lemma_first_among(cs, gone);
    assert forall|c: ConditionView| #[trigger] gone.contains(c) == withdrawn_from(
        withdrawals,
        credential.child,
        c,
        now,
    ) by {
        withdrawals_name_node_and_window(withdrawals, credential.child, now, c);
    }
    if grant_withdrawn(withdrawals, credential, now) {
        let i = choose|i: int|
            0 <= i < cs.len() && withdrawn_from(
                withdrawals,
                credential.child,
                #[trigger] cs[i],
                now,
            );
        assert(gone.contains(cs[i]));
    }
    if let Some(c) = first_among(cs, gone) {
        let i = choose|i: int| 0 <= i < cs.len() && #[trigger] cs[i] == c && gone.contains(c);
        assert(withdrawn_from(withdrawals, credential.child, cs[i], now));
    }
}

proof fn lemma_first_withdrawn(
    credentials: Seq<CredentialView>,
    withdrawals: Seq<WithdrawalView>,
    now: Timestamp,
)
    ensures
        first_withdrawn(credentials, withdrawals, now) is None <==> forall|k: int|
            0 <= k < credentials.len() ==> !grant_withdrawn(
                withdrawals,
                #[trigger] credentials[k],
                now,
            ),
        first_withdrawn(credentials, withdrawals, now) matches Some(x) ==> exists|k: int|
            0 <= k < credentials.len() && x.1 == (#[trigger] credentials[k]).child
                && credentials[k].scope.conditions.contains(x.0) && withdrawn_from(
                withdrawals,
                x.1,
                x.0,
                now,
            ) && forall|j: int|
                0 <= j < k ==> !grant_withdrawn(withdrawals, #[trigger] credentials[j], now),
    decreases credentials.len(),
{
    if credentials.len() > 0 {
        let short = credentials.drop_last();
        let n = credentials.len() - 1;
        lemma_first_withdrawn(short, withdrawals, now);
        lemma_grant(withdrawals, credentials[n], now);
        match first_withdrawn(short, withdrawals, now) {
            Some(x) => {
                let k = choose|k: int|
                    0 <= k < short.len() && x.1 == (#[trigger] short[k]).child
                        && short[k].scope.conditions.contains(x.0) && withdrawn_from(
                        withdrawals,
                        x.1,
                        x.0,
                        now,
                    ) && forall|j: int|
                        0 <= j < k ==> !grant_withdrawn(withdrawals, #[trigger] short[j], now);
                assert(credentials[k].child == x.1);
                assert forall|j: int| 0 <= j < k implies !grant_withdrawn(
                    withdrawals,
                    #[trigger] credentials[j],
                    now,
                ) by {
                    assert(!grant_withdrawn(withdrawals, short[j], now));
                }
                assert(!(forall|j: int|
                    0 <= j < short.len() ==> !grant_withdrawn(
                        withdrawals,
                        #[trigger] short[j],
                        now,
                    )));
                let j = choose|j: int|
                    0 <= j < short.len() && grant_withdrawn(withdrawals, #[trigger] short[j], now);
                assert(grant_withdrawn(withdrawals, credentials[j], now));
            },
            None => {
                assert forall|j: int| 0 <= j < n implies !grant_withdrawn(
                    withdrawals,
                    #[trigger] credentials[j],
                    now,
                ) by {
                    assert(!grant_withdrawn(withdrawals, short[j], now));
                }
                assert(grant_withdrawn(withdrawals, credentials[n], now) || !grant_withdrawn(
                    withdrawals,
                    credentials[n],
                    now,
                ));
            },
        }
    }
}

/// The conditions of a path hold exactly when the act meets every effective
/// condition and no condition of a credential on the path was withdrawn from
/// the child that the credential grants it to. A condition that the act does
/// not meet is told before a withdrawn one, the first of each.
pub proof fn conditions_are_met_and_not_withdrawn(
    path: PathView,
    act: RequestView,
    withdrawals: Seq<WithdrawalView>,
    now: Timestamp,
)
    ensures
        conditions_check(path, act, withdrawals, now) is Ok <==> (forall|i: int|
            0 <= i < path.scope.conditions.len() ==> meets(
                act,
                #[trigger] path.scope.conditions[i],
            )) && (forall|k: int|
            0 <= k < path.credentials.len() ==> !grant_withdrawn(
                withdrawals,
                #[trigger] path.credentials[k],
                now,
            )),
        conditions_check(path, act, withdrawals, now) matches Err(
            ErrorView::ScopeConditionFailed { condition },
        ) ==> exists|i: int|
            0 <= i < path.scope.conditions.len() && #[trigger] path.scope.conditions[i] == condition
                && !meets(act, condition) && forall|j: int|
                0 <= j < i ==> meets(act, #[trigger] path.scope.conditions[j]),
        (exists|i: int|
            0 <= i < path.scope.conditions.len() && !meets(
                act,
                #[trigger] path.scope.conditions[i],
            )) ==> (conditions_check(path, act, withdrawals, now) matches Err(
            ErrorView::ScopeConditionFailed { .. },
        )),
{
    the_first_unmet_condition_is_found(path.scope.conditions, act);
    lemma_first_withdrawn(path.credentials, withdrawals, now);
}

/// A withdrawal of a condition from the child of a credential on a path makes
/// the path's conditions fail while the withdrawal's window lasts.
pub proof fn withdrawals_take_effect(
    path: PathView,
    act: RequestView,
    withdrawals: Seq<WithdrawalView>,
    now: Timestamp,
    k: int,
    i: int,
    w: int,
)
    requires
        0 <= k < path.credentials.len(),
        0 <= i < path.credentials[k].scope.conditions.len(),
        0 <= w < withdrawals.len(),
        withdrawals[w].node == path.credentials[k].child,
        withdrawals[w].condition == path.credentials[k].scope.conditions[i],
        inside(withdrawals[w].window, now),
    ensures
        conditions_check(path, act, withdrawals, now) is Err,
{
    conditions_are_met_and_not_withdrawn(path, act, withdrawals, now);
    assert(withdrawn_from(
        withdrawals,
        path.credentials[k].child,
        path.credentials[k].scope.conditions[i],
        now,
    ));
    assert(grant_withdrawn(withdrawals, path.credentials[k], now));
}

/// Whether a key is the last that the nodes of a graph registered under an id.
pub open spec fn last_registered(nodes: Seq<NodeView>, key_id: Seq<char>, key: KeyView) -> bool {
    exists|i: int|
        0 <= i < nodes.len() && recorded((#[trigger] nodes[i]).keys, key_id, key) && forall|j: int|
            i < j < nodes.len() ==> !has_key(#[trigger] nodes[j], key_id)
}

/// Whether the key that a graph has under a slot's id accepts its signature.
pub open spec fn sound_in(
    g: GraphView,
    slot: SlotView,
    domain: SigningDomain,
    payload: Seq<u8>,
) -> bool {
    exists|key: KeyView| #[trigger]
        last_registered(g.nodes, slot.key_id, key) && sound_under(slot, domain, payload, key)
}

/// A signature is sound under a graph's directory exactly when the key that the
/// graph registered last under the slot's id accepts it.
pub proof fn sound_slots_have_graph_keys(
    g: GraphView,
    slot: SlotView,
    domain: SigningDomain,
    payload: Seq<u8>,
)
    requires
        directory_agrees(directory_of(g), g.nodes),
    ensures
        sound(slot, domain, payload, directory_of(g)) <==> sound_in(g, slot, domain, payload),
{
    let found = directory_of(g).lookup(slot.key_id);
    assert(found == registered_in(g.nodes, slot.key_id));
    if found is Some {
        directories_give_the_last_registration(g.nodes, slot.key_id, found->0);
        assert(last_registered(g.nodes, slot.key_id, found->0));
    }
    if sound_in(g, slot, domain, payload) {
        let key = choose|key: KeyView| #[trigger]
            last_registered(g.nodes, slot.key_id, key) && sound_under(slot, domain, payload, key);
        directories_give_the_last_registration(g.nodes, slot.key_id, key);
        assert(found == Some(key));
    }
}

/// Whether a path is one that carries the authority for an act to the owner of
/// a key, with the credentials along it.
pub open spec fn reaches(v: VerifierView, key_id: Seq<char>, p: PathView) -> bool {
    owner_of(v.graph.nodes, key_id) == Some(p.end) && exists|along: Seq<int>| #[trigger]
        carries(v.graph, v.request, v.bundle, p.root, p.end, along) && p.credentials.len()
            == along.len() && forall|k: int|
            0 <= k < along.len() ==> #[trigger] p.credentials[k] == v.graph.edges[along[k]]
}

/// What a report tells of a slot: its suite and key, whether the graph's key
/// accepts the signature, a path that carries the authority to the key exactly
/// when there is one, and whether none of its conditions was withdrawn.
pub open spec fn tells(
    v: VerifierView,
    slot: SlotView,
    domain: SigningDomain,
    payload: Seq<u8>,
    now: Timestamp,
    r: SlotTrustView,
) -> bool {
    &&& r.suite == slot.suite
    &&& r.key_id == slot.key_id
    &&& r.crypto is Ok <==> sound_in(v.graph, slot, domain, payload)
    &&& r.path is Ok <==> (owner_of(v.graph.nodes, slot.key_id) matches Some(end) && exists|
        root: Seq<char>,
        along: Seq<int>,
    | #[trigger] carries(v.graph, v.request, v.bundle, root, end, along))
    &&& r.path matches Ok(p) ==> reaches(v, slot.key_id, p)
    &&& r.conditions is Ok <==> (r.path matches Ok(p) && forall|k: int|
        0 <= k < p.credentials.len() ==> !grant_withdrawn(
            v.withdrawals,
            #[trigger] p.credentials[k],
            now,
        ))
}

proof fn lemma_found_conditions(v: VerifierView, key_id: Seq<char>)
    ensures
        v.graph.resolution(key_id, v.request, v.bundle) matches Search::Found { root, path, scope }
            ==> first_failing(scope.conditions, v.request) is None,
{
    crate::graph::search::resolution_is_sound(v.graph, key_id, v.request, v.bundle);
}

proof fn lemma_path(v: VerifierView, key_id: Seq<char>, now: Timestamp)
    ensures
        trust_path(v.graph, key_id, v.request, v.bundle) is Ok <==> (owner_of(
            v.graph.nodes,
            key_id,
        ) matches Some(end) && exists|root: Seq<char>, along: Seq<int>| #[trigger]
            carries(v.graph, v.request, v.bundle, root, end, along)),
        trust_path(v.graph, key_id, v.request, v.bundle) matches Ok(p) ==> reaches(v, key_id, p),
{
    keys_resolve_to_anchored_roots(v.graph, key_id, v.request, v.bundle);
    if let Search::Found { root, path, scope } = v.graph.resolution(key_id, v.request, v.bundle) {
        let p = trust_path(v.graph, key_id, v.request, v.bundle)->Ok_0;
        assert forall|k: int| 0 <= k < path.len() implies #[trigger] p.credentials[k]
            == v.graph.edges[path[k]] by {}
        assert(carries(v.graph, v.request, v.bundle, p.root, p.end, path));
    }
}

proof fn lemma_path_conditions(v: VerifierView, key_id: Seq<char>, now: Timestamp)
    ensures
        trust_path(v.graph, key_id, v.request, v.bundle) matches Ok(p) ==> (conditions_check(
            p,
            v.request,
            v.withdrawals,
            now,
        ) is Ok <==> forall|k: int|
            0 <= k < p.credentials.len() ==> !grant_withdrawn(
                v.withdrawals,
                #[trigger] p.credentials[k],
                now,
            )),
{
    lemma_found_conditions(v, key_id);
    if let Ok(p) = trust_path(v.graph, key_id, v.request, v.bundle) {
        conditions_are_met_and_not_withdrawn(p, v.request, v.withdrawals, now);
        the_first_unmet_condition_is_found(p.scope.conditions, v.request);
    }
}

proof fn lemma_slot(
    v: VerifierView,
    slot: SlotView,
    crypto: Result<(), Seq<char>>,
    domain: SigningDomain,
    payload: Seq<u8>,
    now: Timestamp,
)
    requires
        crypto is Ok <==> sound_in(v.graph, slot, domain, payload),
    ensures
        tells(v, slot, domain, payload, now, v.slot(slot, crypto, now)),
{
    lemma_path(v, slot.key_id, now);
    lemma_path_conditions(v, slot.key_id, now);
}

/// Whether a report from a position on tells of a slot.
pub open spec fn told_from(
    v: VerifierView,
    reports: Seq<SlotTrustView>,
    start: int,
    slot: SlotView,
    domain: SigningDomain,
    payload: Seq<u8>,
    now: Timestamp,
) -> bool {
    exists|i: int|
        start <= i < reports.len() && tells(v, slot, domain, payload, now, #[trigger] reports[i])
}

/// Every plain slot of a co-signature and every member of its composites has a
/// report that tells of it, in this order, and there are no other reports.
pub proof fn every_slot_is_reported(v: VerifierView, c: CoSignatureView, now: Timestamp)
    requires
        directory_agrees(directory_of(v.graph), v.graph.nodes),
    ensures
        v.slots(c, now).len() >= c.slots.len(),
        forall|i: int|
            0 <= i < c.slots.len() ==> tells(
                v,
                c.slots[i],
                c.domain,
                c.payload,
                now,
                #[trigger] v.slots(c, now)[i],
            ),
        forall|i: int|
            c.slots.len() <= i < v.slots(c, now).len() ==> member_told(
                v,
                c.composites,
                now,
                #[trigger] v.slots(c, now)[i],
            ),
        forall|j: int, m: int|
            0 <= j < c.composites.len() && 0 <= m < c.composites[j].members.len() ==> told_from(
                v,
                v.slots(c, now),
                c.slots.len() as int,
                #[trigger] c.composites[j].members[m],
                c.composites[j].domain,
                c.composites[j].payload,
                now,
            ),
{
    let all = v.slots(c, now);
    let rest = v.composite_slots(c.composites, now);
    assert forall|i: int| 0 <= i < c.slots.len() implies tells(
        v,
        c.slots[i],
        c.domain,
        c.payload,
        now,
        #[trigger] all[i],
    ) by {
        let s = c.slots[i];
        sound_slots_have_graph_keys(v.graph, s, c.domain, c.payload);
        if let Some(key) = directory_of(v.graph).lookup(s.key_id) {
            slots_pass_when_the_key_accepts(s, c.domain, c.payload, key);
        }
        lemma_slot(v, s, v.slot_crypto(s, c.domain, c.payload), c.domain, c.payload, now);
        assert(all[i] == v.plain_slots(c, now)[i]);
    }
    assert forall|i: int| c.slots.len() <= i < all.len() implies member_told(
        v,
        c.composites,
        now,
        #[trigger] all[i],
    ) by {
        assert(all[i] == rest[i - c.slots.len()]);
        lemma_members_told(v, c.composites, now, i - c.slots.len());
    }
    assert forall|j: int, m: int|
        0 <= j < c.composites.len() && 0 <= m < c.composites[j].members.len() implies told_from(
        v,
        all,
        c.slots.len() as int,
        #[trigger] c.composites[j].members[m],
        c.composites[j].domain,
        c.composites[j].payload,
        now,
    ) by {
        let k = lemma_member_reported(v, c.composites, now, j, m);
        assert(all[k + c.slots.len()] == rest[k]);
    }
}

/// Whether a report tells of a member of one of some composites.
pub open spec fn member_told(
    v: VerifierView,
    composites: Seq<CompositeView>,
    now: Timestamp,
    r: SlotTrustView,
) -> bool {
    exists|j: int, m: int|
        0 <= j < composites.len() && 0 <= m < composites[j].members.len() && tells(
            v,
            #[trigger] composites[j].members[m],
            composites[j].domain,
            composites[j].payload,
            now,
            r,
        )
}

proof fn lemma_member(v: VerifierView, c: CompositeView, now: Timestamp, m: int)
    requires
        directory_agrees(directory_of(v.graph), v.graph.nodes),
        0 <= m < c.members.len(),
    ensures
        tells(v, c.members[m], c.domain, c.payload, now, v.member_slots(c, now)[m]),
{
    let s = c.members[m];
    sound_slots_have_graph_keys(v.graph, s, c.domain, c.payload);
    verdicts_follow_the_signature(s, c.domain, c.payload, directory_of(v.graph));
    lemma_slot(v, s, v.member_crypto(s, c.domain, c.payload), c.domain, c.payload, now);
}

proof fn lemma_members_told(v: VerifierView, s: Seq<CompositeView>, now: Timestamp, k: int)
    requires
        directory_agrees(directory_of(v.graph), v.graph.nodes),
        0 <= k < v.composite_slots(s, now).len(),
    ensures
        member_told(v, s, now, v.composite_slots(s, now)[k]),
    decreases s.len(),
{
    let short = s.drop_last();
    let front = v.composite_slots(short, now);
    let n = s.len() - 1;
    let r = v.composite_slots(s, now)[k];
    if k < front.len() {
        lemma_members_told(v, short, now, k);
        assert(r == front[k]);
        let (j, m) = choose|j: int, m: int|
            0 <= j < short.len() && 0 <= m < short[j].members.len() && tells(
                v,
                #[trigger] short[j].members[m],
                short[j].domain,
                short[j].payload,
                now,
                r,
            );
        assert(tells(v, s[j].members[m], s[j].domain, s[j].payload, now, r));
    } else {
        let m = k - front.len();
        lemma_member(v, s[n], now, m);
        assert(r == v.member_slots(s[n], now)[m]);
        assert(tells(v, s[n].members[m], s[n].domain, s[n].payload, now, r));
    }
}

proof fn lemma_member_reported(
    v: VerifierView,
    s: Seq<CompositeView>,
    now: Timestamp,
    j: int,
    m: int,
) -> (k: int)
    requires
        directory_agrees(directory_of(v.graph), v.graph.nodes),
        0 <= j < s.len(),
        0 <= m < s[j].members.len(),
    ensures
        0 <= k < v.composite_slots(s, now).len(),
        tells(
            v,
            s[j].members[m],
            s[j].domain,
            s[j].payload,
            now,
            v.composite_slots(s, now)[k],
        ),
    decreases s.len(),
{
    let short = s.drop_last();
    let front = v.composite_slots(short, now);
    let n = s.len() - 1;
    if j < n {
        let k = lemma_member_reported(v, short, now, j, m);
        assert(v.composite_slots(s, now)[k] == front[k]);
        k
    } else {
        lemma_member(v, s[n], now, m);
        assert(v.composite_slots(s, now)[front.len() + m] == v.member_slots(s[n], now)[m]);
        front.len() + m
    }
}

/// What it takes for an artifact to be accepted, over what it was verified
/// with: enough distinct suites that verified and are allowed, a slot that
/// counts, a record that did not fail, and no declaration known now that voids
/// the artifact from the start.
pub proof fn verified_artifacts_are_accepted_when(
    r: SignatifVerdict,
    v: VerifierView,
    c: CoSignatureView,
    now: Timestamp,
    subject: Seq<char>,
    issuers: IssuanceIndex,
    provenance: ProvenanceGraph,
)
    requires
        trust_views(r.trust.slots@) == v.slots(c, now),
        r.trust.acceptance is Accepted == v.policy.accepts(v.verified(c)),
        r.verdict.current_state.voids_ab_initio == any_voids(
            taints_under(v.revocations, subject, issuers, provenance, None),
        ),
    ensures
        r.is_accepted() <==> {
            let both = in_both(v.verified(c), v.policy.allowed_suites@);
            &&& both.len() >= 1 && both.len() >= v.policy.min_verified_suites
            &&& exists|i: int|
                0 <= i < v.slots(c, now).len() && (#[trigger] v.slots(c, now)[i]).crypto is Ok
                    && v.slots(c, now)[i].path is Ok && v.slots(c, now)[i].conditions is Ok
            &&& r.verdict.outcome is Pass || r.verdict.outcome is Degraded
            &&& !void_by(v.revocations, subject, issuers, provenance, None)
        },
{
    acceptance_takes_four_things(r);
    policies_count_allowed_suites_only(v.policy, v.verified(c));
    voiding_follows_issuance_and_ancestry(v.revocations, subject, issuers, provenance, None);
    let raw = r.trust.slots@;
    let all = v.slots(c, now);
    assert forall|i: int| 0 <= i < raw.len() implies ((#[trigger] raw[i]).crypto is Ok
        && raw[i].path is Ok && raw[i].conditions is Ok) == (all[i].crypto is Ok && all[i].path is Ok
        && all[i].conditions is Ok) by {
        assert(all[i] == trust_views(raw)[i]);
    }
    if exists|i: int|
        0 <= i < all.len() && (#[trigger] all[i]).crypto is Ok && all[i].path is Ok
            && all[i].conditions is Ok {
        let i = choose|i: int|
            0 <= i < all.len() && (#[trigger] all[i]).crypto is Ok && all[i].path is Ok
                && all[i].conditions is Ok;
        assert(raw[i].crypto is Ok);
    }
}

/// The suites that verified are those that a sound plain slot has, and those
/// that a composite that is sound as a whole has.
pub proof fn verified_suites_are_sound(v: VerifierView, c: CoSignatureView, s: Suite)
    requires
        directory_agrees(directory_of(v.graph), v.graph.nodes),
    ensures
        v.verified(c).contains(s) <==> (exists|i: int|
            0 <= i < c.slots.len() && (#[trigger] c.slots[i]).suite == s && sound_in(
                v.graph,
                c.slots[i],
                c.domain,
                c.payload,
            )) || (exists|j: int|
            0 <= j < c.composites.len() && wholly_signed_in(
                #[trigger] c.composites[j],
                directory_of(v.graph),
                s,
            )),
{
    suites_verify_by_sound_slots(c, directory_of(v.graph), s);
    assert forall|i: int| 0 <= i < c.slots.len() implies sound(
        #[trigger] c.slots[i],
        c.domain,
        c.payload,
        directory_of(v.graph),
    ) == sound_in(v.graph, c.slots[i], c.domain, c.payload) by {
        sound_slots_have_graph_keys(v.graph, c.slots[i], c.domain, c.payload);
    }
}

/// The first taint of a list that voids is the first that is of one of the two
/// kinds that do, and there is none exactly when no taint is.
pub proof fn the_first_voiding_taint_is_told(s: Seq<TaintView>)
    ensures
        first_voiding(s) is None <==> forall|i: int|
            0 <= i < s.len() ==> (#[trigger] s[i]).kind != TaintKind::Known(KnownTaint::Misissued)
                && s[i].kind != TaintKind::Known(KnownTaint::Fraud),
        first_voiding(s) matches Some(t) ==> exists|i: int|
            0 <= i < s.len() && #[trigger] s[i] == t && (t.kind == TaintKind::Known(
                KnownTaint::Misissued,
            ) || t.kind == TaintKind::Known(KnownTaint::Fraud)) && forall|j: int|
                0 <= j < i ==> (#[trigger] s[j]).kind != TaintKind::Known(KnownTaint::Misissued)
                    && s[j].kind != TaintKind::Known(KnownTaint::Fraud),
    decreases s.len(),
{
    if s.len() > 0 {
        let short = s.drop_last();
        let n = s.len() - 1;
        the_first_voiding_taint_is_told(short);
        match first_voiding(short) {
            Some(t) => {
                let i = choose|i: int|
                    0 <= i < short.len() && #[trigger] short[i] == t && (t.kind == TaintKind::Known(
                        KnownTaint::Misissued,
                    ) || t.kind == TaintKind::Known(KnownTaint::Fraud)) && forall|j: int|
                        0 <= j < i ==> (#[trigger] short[j]).kind != TaintKind::Known(
                            KnownTaint::Misissued,
                        ) && short[j].kind != TaintKind::Known(KnownTaint::Fraud);
                assert(s[i] == t);
                assert forall|j: int| 0 <= j < i implies (#[trigger] s[j]).kind
                    != TaintKind::Known(KnownTaint::Misissued) && s[j].kind != TaintKind::Known(
                    KnownTaint::Fraud,
                ) by {
                    assert(short[j] == s[j]);
                }
            },
            None => {
                assert forall|j: int| 0 <= j < n implies (#[trigger] s[j]).kind
                    != TaintKind::Known(KnownTaint::Misissued) && s[j].kind != TaintKind::Known(
                    KnownTaint::Fraud,
                ) by {
                    assert(short[j] == s[j]);
                }
                assert(s[n] == s.last());
            },
        }
    }
}

/// What a verification as of a moment certified falls exactly by declarations
/// that act back and were not made by then: the passport is void by them now,
/// and was not by what had been declared.
pub proof fn histories_fall_by_later_declarations(
    revocations: Seq<RevocationView>,
    subject: Seq<char>,
    issuers: IssuanceIndex,
    provenance: ProvenanceGraph,
    as_of: Timestamp,
)
    ensures
        (any_voids(taints_under(revocations, subject, issuers, provenance, None)) && !any_voids(
            taints_under(revocations, subject, issuers, provenance, Some(as_of)),
        )) <==> void_by(revocations, subject, issuers, provenance, None) && !void_by(
            revocations,
            subject,
            issuers,
            provenance,
            Some(as_of),
        ),
{
    voiding_follows_issuance_and_ancestry(revocations, subject, issuers, provenance, None);
    voiding_follows_issuance_and_ancestry(revocations, subject, issuers, provenance, Some(as_of));
}

/// The slots that a carrier takes are all those of the five suites that have a
/// place on one, in their order.
pub proof fn carriers_take_five_suites(slots: Seq<SlotView>)
    ensures
        carried(slots) == slots.filter(
            |s: SlotView|
                s.suite == Suite::EcdsaP256 || s.suite == Suite::Sm2 || s.suite == Suite::MlDsa44
                    || s.suite == Suite::MlDsa65 || s.suite == Suite::MlDsa87,
        ),
    decreases slots.len(),
{
    reveal(Seq::filter);
    if slots.len() > 0 {
        carriers_take_five_suites(slots.drop_last());
    }
}

/// Whether the graph's key accepts the signature of some plain slot.
pub open spec fn slot_sound(g: GraphView, c: CoSignatureView) -> bool {
    exists|i: int|
        0 <= i < c.slots.len() && sound_in(g, #[trigger] c.slots[i], c.domain, c.payload)
}

/// Whether the graph's key accepts the signature of some member of a composite.
pub open spec fn member_sound(g: GraphView, composites: Seq<CompositeView>) -> bool {
    exists|j: int, m: int|
        0 <= j < composites.len() && 0 <= m < composites[j].members.len() && sound_in(
            g,
            #[trigger] composites[j].members[m],
            composites[j].domain,
            composites[j].payload,
        )
}

proof fn lemma_told_sound(
    v: VerifierView,
    composites: Seq<CompositeView>,
    now: Timestamp,
    r: SlotTrustView,
)
    requires
        member_told(v, composites, now, r),
        r.crypto is Ok,
    ensures
        member_sound(v.graph, composites),
{
    let (j, m) = choose|j: int, m: int|
        0 <= j < composites.len() && 0 <= m < composites[j].members.len() && tells(
            v,
            #[trigger] composites[j].members[m],
            composites[j].domain,
            composites[j].payload,
            now,
            r,
        );
    assert(sound_in(
        v.graph,
        composites[j].members[m],
        composites[j].domain,
        composites[j].payload,
    ));
}

proof fn lemma_sound_told(
    v: VerifierView,
    reports: Seq<SlotTrustView>,
    start: int,
    slot: SlotView,
    domain: SigningDomain,
    payload: Seq<u8>,
    now: Timestamp,
)
    requires
        0 <= start,
        told_from(v, reports, start, slot, domain, payload, now),
        sound_in(v.graph, slot, domain, payload),
    ensures
        any_crypto(reports),
{
    let i = choose|i: int|
        start <= i < reports.len() && tells(v, slot, domain, payload, now, #[trigger] reports[i]);
    assert(reports[i].crypto is Ok);
}

/// A record is attested exactly when the graph's key accepts the signature of
/// some plain slot or of some member of a composite.
pub proof fn records_are_attested_by_a_sound_signature(
    v: VerifierView,
    c: CoSignatureView,
    now: Timestamp,
)
    requires
        directory_agrees(directory_of(v.graph), v.graph.nodes),
    ensures
        any_crypto(v.slots(c, now)) <==> slot_sound(v.graph, c) || member_sound(
            v.graph,
            c.composites,
        ),
{
    let all = v.slots(c, now);
    assert(any_crypto(all) ==> slot_sound(v.graph, c) || member_sound(v.graph, c.composites)) by {
        every_slot_is_reported(v, c, now);
        if any_crypto(all) {
            let i = choose|i: int| 0 <= i < all.len() && (#[trigger] all[i]).crypto is Ok;
            if i < c.slots.len() {
                assert(tells(v, c.slots[i], c.domain, c.payload, now, all[i]));
            } else {
                lemma_told_sound(v, c.composites, now, all[i]);
            }
        }
    }
    assert(slot_sound(v.graph, c) ==> any_crypto(all)) by {
        every_slot_is_reported(v, c, now);
        if slot_sound(v.graph, c) {
            let i = choose|i: int|
                0 <= i < c.slots.len() && sound_in(
                    v.graph,
                    #[trigger] c.slots[i],
                    c.domain,
                    c.payload,
                );
            assert(tells(v, c.slots[i], c.domain, c.payload, now, all[i]));
        }
    }
    assert(member_sound(v.graph, c.composites) ==> any_crypto(all)) by {
        every_slot_is_reported(v, c, now);
        if member_sound(v.graph, c.composites) {
            let (j, m) = choose|j: int, m: int|
                0 <= j < c.composites.len() && 0 <= m < c.composites[j].members.len() && sound_in(
                    v.graph,
                    #[trigger] c.composites[j].members[m],
                    c.composites[j].domain,
                    c.composites[j].payload,
                );
            lemma_sound_told(
                v,
                all,
                c.slots.len() as int,
                c.composites[j].members[m],
                c.composites[j].domain,
                c.composites[j].payload,
                now,
            );
        }
    }
}

/// Every report tells how the slot's key stands at the moment of the
/// verification under all declarations, whenever they were made.
pub proof fn reports_tell_how_the_key_stands(v: VerifierView, c: CoSignatureView, now: Timestamp)
    ensures
        forall|i: int|
            0 <= i < v.slots(c, now).len() ==> (#[trigger] v.slots(c, now)[i]).standing
                == key_standing_under(v.revocations, v.slots(c, now)[i].key_id, now, None),
{
    lemma_composite_standings(v, c.composites, now);
    let rest = v.composite_slots(c.composites, now);
    let plain = v.plain_slots(c, now);
    let all = v.slots(c, now);
    assert forall|i: int| 0 <= i < all.len() implies (#[trigger] all[i]).standing
        == key_standing_under(v.revocations, all[i].key_id, now, None) by {
        if i < plain.len() {
            assert(all[i] == plain[i]);
        } else {
            assert(all[i] == rest[i - plain.len()]);
        }
    }
}

proof fn lemma_composite_standings(v: VerifierView, s: Seq<CompositeView>, now: Timestamp)
    ensures
        forall|i: int|
            0 <= i < v.composite_slots(s, now).len() ==> (#[trigger] v.composite_slots(
                s,
                now,
            )[i]).standing == key_standing_under(
                v.revocations,
                v.composite_slots(s, now)[i].key_id,
                now,
                None,
            ),
    decreases s.len(),
{
    if s.len() > 0 {
        lemma_composite_standings(v, s.drop_last(), now);
        let front = v.composite_slots(s.drop_last(), now);
        let last = v.member_slots(s.last(), now);
        let all = v.composite_slots(s, now);
        assert forall|i: int| 0 <= i < all.len() implies (#[trigger] all[i]).standing
            == key_standing_under(v.revocations, all[i].key_id, now, None) by {
            if i < front.len() {
                assert(all[i] == front[i]);
            } else {
                assert(all[i] == last[i - front.len()]);
            }
        }
    }
}

} // verus!
