//! What the trust graph promises: its roots, its credentials, its anchors and
//! the resolution of a key to a root.

use vstd::prelude::*;

use crate::graph::{
    first_value, holding_witnesses, insert_position, lemma_insert_position, node_position, owner_of,
    registered_in, root_ids, signing_keys, witness_bytes, AnchorBundle, CredentialView, GraphView,
    KindView, MasterList, NodeView, TrustListEntry, WitnessAttestation,
};
use crate::graph::search::{serves, Search};
use crate::graph::walk::{is_simple, is_walk, reachable, visited, walk_end};
use crate::keyring::{KeyView, PublicKey};
use crate::laws::not_later;
use crate::laws::scopes::{
    meets, narrowing_is_inclusion, narrows, permits, recorded, scopes_admit_on_every_layer,
    the_first_unmet_condition_is_found,
};
use crate::laws::signatures::{slots_pass_when_the_key_accepts, sound_under};
use crate::maps::TextMap;
use crate::scope::{first_failing, ConditionView, RequestView, ScopeView};
use crate::sign::{SigningDomain, SlotView};
use crate::text::{lemma_text_lt_total, lemma_text_lt_transitive, text_lt};
use crate::time::Timestamp;

verus! {

/// Whether a node of kind root stands under an id.
pub open spec fn is_a_root(nodes: Seq<NodeView>, id: Seq<char>) -> bool {
    exists|i: int| 0 <= i < nodes.len() && (#[trigger] nodes[i]).id == id && nodes[i].kind is Root
}

/// The roots of a graph are all of its nodes of kind root, and no others: as
/// many ids as there are such nodes, in the order of the nodes.
pub proof fn roots_are_the_nodes_of_kind_root(nodes: Seq<NodeView>, id: Seq<char>)
    ensures
        root_ids(nodes).contains(id) <==> is_a_root(nodes, id),
        root_ids(nodes) == nodes.filter(|n: NodeView| n.kind is Root).map_values(
            |n: NodeView| n.id,
        ),
    decreases nodes.len(),
{
    let f = |n: NodeView| n.kind is Root;
    let g = |n: NodeView| n.id;
    reveal(Seq::filter);
    if nodes.len() > 0 {
        let short = nodes.drop_last();
        let n = nodes.len() - 1;
        let front = root_ids(short);
        roots_are_the_nodes_of_kind_root(short, id);
        if is_a_root(short, id) {
            let i = choose|i: int|
                0 <= i < short.len() && (#[trigger] short[i]).id == id && short[i].kind is Root;
            assert(nodes[i].id == id);
            assert(root_ids(nodes)[front.index_of(id)] == id);
        }
        if is_a_root(nodes, id) {
            let i = choose|i: int|
                0 <= i < nodes.len() && (#[trigger] nodes[i]).id == id && nodes[i].kind is Root;
            if i < n {
                assert(short[i].id == id);
            } else {
                assert(root_ids(nodes)[front.len() as int] == id);
            }
        }
        if root_ids(nodes).contains(id) && !front.contains(id) {
            let k = root_ids(nodes).index_of(id);
            if k < front.len() {
                assert(front[k] == id);
            }
            assert(nodes[n].id == id);
        }
        if nodes[n].kind is Root {
            assert(short.filter(f).push(nodes[n]).map_values(g) =~= short.filter(f).map_values(
                g,
            ).push(nodes[n].id));
        }
    } else {
        assert(nodes.filter(f).map_values(g) =~= Seq::empty());
    }
}

/// Whether a node has a key under an id.
pub open spec fn has_key(node: NodeView, key_id: Seq<char>) -> bool {
    exists|j: int| 0 <= j < node.keys.len() && (#[trigger] node.keys[j]).0 == key_id
}

/// Whether a key is the one that a node registered first under an id.
pub open spec fn first_registered(node: NodeView, key_id: Seq<char>, key: KeyView) -> bool {
    exists|j: int|
        0 <= j < node.keys.len() && #[trigger] node.keys[j] == (key_id, key) && forall|m: int|
            0 <= m < j ==> (#[trigger] node.keys[m]).0 != key_id
}

proof fn lemma_first_value<V>(pairs: Seq<(Seq<char>, V)>, key: Seq<char>)
    ensures
        first_value(pairs, key) matches Some(v) ==> exists|j: int|
            0 <= j < pairs.len() && #[trigger] pairs[j] == (key, v) && forall|m: int|
                0 <= m < j ==> (#[trigger] pairs[m]).0 != key,
        first_value(pairs, key) is None ==> forall|m: int|
            0 <= m < pairs.len() ==> (#[trigger] pairs[m]).0 != key,
    decreases pairs.len(),
{
    if pairs.len() > 0 {
        let short = pairs.drop_last();
        let n = pairs.len() - 1;
        lemma_first_value(short, key);
        match first_value(short, key) {
            Some(v) => {
                let j = choose|j: int|
                    0 <= j < short.len() && #[trigger] short[j] == (key, v) && forall|m: int|
                        0 <= m < j ==> (#[trigger] short[m]).0 != key;
                assert(pairs[j] == (key, v));
                assert forall|m: int| 0 <= m < j implies (#[trigger] pairs[m]).0 != key by {
                    assert(short[m].0 != key);
                }
            },
            None => {
                assert forall|m: int| 0 <= m < n implies (#[trigger] pairs[m]).0 != key by {
                    assert(short[m].0 != key);
                }
                if pairs[n].0 == key {
                    assert(pairs[n] == (key, pairs[n].1));
                }
            },
        }
    }
}

/// A node gives for an id the key that it registered first under it.
pub proof fn nodes_give_the_first_registration(node: NodeView, key_id: Seq<char>, key: KeyView)
    ensures
        first_value(node.keys, key_id) == Some(key) <==> first_registered(node, key_id, key),
        first_value(node.keys, key_id) is Some <==> has_key(node, key_id),
{
    lemma_first_value(node.keys, key_id);
    if first_registered(node, key_id, key) {
        let j = choose|j: int|
            0 <= j < node.keys.len() && #[trigger] node.keys[j] == (key_id, key) && forall|m: int|
                0 <= m < j ==> (#[trigger] node.keys[m]).0 != key_id;
        assert(node.keys[j].0 == key_id);
        let v = first_value(node.keys, key_id)->0;
        let i = choose|i: int|
            0 <= i < node.keys.len() && #[trigger] node.keys[i] == (key_id, v) && forall|m: int|
                0 <= m < i ==> (#[trigger] node.keys[m]).0 != key_id;
        assert(node.keys[i].0 == key_id);
        assert(i == j);
    }
    if let Some(v) = first_value(node.keys, key_id) {
        let i = choose|i: int|
            0 <= i < node.keys.len() && #[trigger] node.keys[i] == (key_id, v) && forall|m: int|
                0 <= m < i ==> (#[trigger] node.keys[m]).0 != key_id;
        assert(node.keys[i].0 == key_id);
    }
}

/// The owner of a key is the first node that has a key under its id.
pub proof fn owners_come_first(nodes: Seq<NodeView>, key_id: Seq<char>)
    ensures
        owner_of(nodes, key_id) is None <==> forall|i: int|
            0 <= i < nodes.len() ==> !has_key(#[trigger] nodes[i], key_id),
        owner_of(nodes, key_id) matches Some(id) ==> exists|i: int|
            0 <= i < nodes.len() && (#[trigger] nodes[i]).id == id && has_key(nodes[i], key_id)
                && forall|j: int| 0 <= j < i ==> !has_key(#[trigger] nodes[j], key_id),
    decreases nodes.len(),
{
    if nodes.len() > 0 {
        let short = nodes.drop_last();
        let n = nodes.len() - 1;
        owners_come_first(short, key_id);
        lemma_first_value(nodes[n].keys, key_id);
        if first_value(nodes[n].keys, key_id) is Some {
            nodes_give_the_first_registration(
                nodes[n],
                key_id,
                first_value(nodes[n].keys, key_id)->0,
            );
        }
        match owner_of(short, key_id) {
            Some(id) => {
                let i = choose|i: int|
                    0 <= i < short.len() && (#[trigger] short[i]).id == id && has_key(
                        short[i],
                        key_id,
                    ) && forall|j: int| 0 <= j < i ==> !has_key(#[trigger] short[j], key_id);
                assert(nodes[i].id == id && has_key(nodes[i], key_id));
                assert forall|j: int| 0 <= j < i implies !has_key(#[trigger] nodes[j], key_id) by {
                    assert(!has_key(short[j], key_id));
                }
            },
            None => {
                assert forall|j: int| 0 <= j < n implies !has_key(#[trigger] nodes[j], key_id) by {
                    assert(!has_key(short[j], key_id));
                }
                assert(has_key(nodes[n], key_id) || !has_key(nodes[n], key_id));
            },
        }
    }
}

/// The directory of a graph gives for an id the registration that came last:
/// the last of the last node that has one.
pub proof fn directories_give_the_last_registration(
    nodes: Seq<NodeView>,
    key_id: Seq<char>,
    key: KeyView,
)
    ensures
        registered_in(nodes, key_id) == Some(key) <==> exists|i: int|
            0 <= i < nodes.len() && recorded((#[trigger] nodes[i]).keys, key_id, key) && forall|
                j: int,
            | i < j < nodes.len() ==> !has_key(#[trigger] nodes[j], key_id),
    decreases nodes.len(),
{
    if nodes.len() > 0 {
        let short = nodes.drop_last();
        let n = nodes.len() - 1;
        directories_give_the_last_registration(short, key_id, key);
        crate::laws::scopes::the_last_record_counts(nodes[n].keys, key_id, key);
        crate::laws::scopes::records_are_found(nodes[n].keys, key_id);
        let last = crate::scope::last_value(nodes[n].keys, key_id);
        if last is Some {
            crate::laws::scopes::the_last_record_counts(nodes[n].keys, key_id, last->0);
            let j = choose|j: int|
                0 <= j < nodes[n].keys.len() && #[trigger] nodes[n].keys[j] == (key_id, last->0)
                    && forall|m: int|
                    j < m < nodes[n].keys.len() ==> (#[trigger] nodes[n].keys[m]).0 != key_id;
            assert(nodes[n].keys[j].0 == key_id);
            assert(has_key(nodes[n], key_id));
            if last->0 == key {
                assert(recorded(nodes[n].keys, key_id, key));
            }
        } else {
            assert(!has_key(nodes[n], key_id));
            if registered_in(short, key_id) == Some(key) {
                let i = choose|i: int|
                    0 <= i < short.len() && recorded((#[trigger] short[i]).keys, key_id, key)
                        && forall|j: int|
                        i < j < short.len() ==> !has_key(#[trigger] short[j], key_id);
                assert(recorded(nodes[i].keys, key_id, key));
                assert forall|j: int| i < j < nodes.len() implies !has_key(
                    #[trigger] nodes[j],
                    key_id,
                ) by {
                    if j < n {
                        assert(!has_key(short[j], key_id));
                    }
                }
            }
        }
        if exists|i: int|
            0 <= i < nodes.len() && recorded((#[trigger] nodes[i]).keys, key_id, key) && forall|
                j: int,
            | i < j < nodes.len() ==> !has_key(#[trigger] nodes[j], key_id) {
            let i = choose|i: int|
                0 <= i < nodes.len() && recorded((#[trigger] nodes[i]).keys, key_id, key)
                    && forall|j: int|
                    i < j < nodes.len() ==> !has_key(#[trigger] nodes[j], key_id);
            if i < n {
                assert(!has_key(nodes[n], key_id));
                assert(recorded(short[i].keys, key_id, key));
                assert forall|j: int| i < j < short.len() implies !has_key(
                    #[trigger] short[j],
                    key_id,
                ) by {
                    assert(!has_key(nodes[j], key_id));
                }
            }
        }
    }
}

/// The keys of a node that signed a payload, of those that a list of slots
/// names.
pub open spec fn signers(
    slots: Seq<SlotView>,
    node: NodeView,
    domain: SigningDomain,
    payload: Seq<u8>,
) -> Set<Seq<char>> {
    slots.map_values(|s: SlotView| s.key_id).to_set().filter(
        |id: Seq<char>| signed_by(slots, node, domain, payload, id),
    )
}

/// Whether a slot holds a signature of a payload under the key that a node has
/// under an id.
pub open spec fn signed_by(
    slots: Seq<SlotView>,
    node: NodeView,
    domain: SigningDomain,
    payload: Seq<u8>,
    key_id: Seq<char>,
) -> bool {
    exists|i: int, key: KeyView|
        0 <= i < slots.len() && slots[i].key_id == key_id && first_registered(node, key_id, key)
            && #[trigger] sound_under(slots[i], domain, payload, key)
}

proof fn lemma_signing_keys(
    slots: Seq<SlotView>,
    node: NodeView,
    domain: SigningDomain,
    payload: Seq<u8>,
    id: Seq<char>,
)
    ensures
        signing_keys(slots, node.keys, domain, payload).contains(id) <==> signed_by(
            slots,
            node,
            domain,
            payload,
            id,
        ),
    decreases slots.len(),
{
    if slots.len() > 0 {
        let short = slots.drop_last();
        let n = slots.len() - 1;
        let s = slots[n];
        lemma_signing_keys(short, node, domain, payload, id);
        let found = first_value(node.keys, s.key_id);
        if found is Some {
            nodes_give_the_first_registration(node, s.key_id, found->0);
            slots_pass_when_the_key_accepts(s, domain, payload, found->0);
        }
        if signed_by(short, node, domain, payload, id) {
            let (i, key) = choose|i: int, key: KeyView|
                0 <= i < short.len() && short[i].key_id == id && first_registered(node, id, key)
                    && #[trigger] sound_under(short[i], domain, payload, key);
            assert(sound_under(slots[i], domain, payload, key));
        }
        if signed_by(slots, node, domain, payload, id) {
            let (i, key) = choose|i: int, key: KeyView|
                0 <= i < slots.len() && slots[i].key_id == id && first_registered(node, id, key)
                    && #[trigger] sound_under(slots[i], domain, payload, key);
            nodes_give_the_first_registration(node, id, key);
            slots_pass_when_the_key_accepts(slots[i], domain, payload, key);
            if i < n {
                assert(sound_under(short[i], domain, payload, key));
            }
        }
        if s.key_id == id && found is Some && s.verifies(domain, payload, found->0) {
            assert(sound_under(slots[n], domain, payload, found->0));
        }
    }
}

/// The signers of a payload are the distinct ids of a node's keys under which
/// some slot holds a sound signature of it.
pub proof fn signers_are_distinct_keys(
    slots: Seq<SlotView>,
    node: NodeView,
    domain: SigningDomain,
    payload: Seq<u8>,
)
    ensures
        signing_keys(slots, node.keys, domain, payload) == signers(slots, node, domain, payload),
{
    let all = slots.map_values(|s: SlotView| s.key_id);
    assert forall|id: Seq<char>|
        signing_keys(slots, node.keys, domain, payload).contains(id) == signers(
            slots,
            node,
            domain,
            payload,
        ).contains(id) by {
        lemma_signing_keys(slots, node, domain, payload, id);
        if signed_by(slots, node, domain, payload, id) {
            let (i, key) = choose|i: int, key: KeyView|
                0 <= i < slots.len() && slots[i].key_id == id && first_registered(node, id, key)
                    && #[trigger] sound_under(slots[i], domain, payload, key);
            assert(all[i] == id);
        }
    }
    assert(signing_keys(slots, node.keys, domain, payload) =~= signers(
        slots,
        node,
        domain,
        payload,
    ));
}

/// Whether a node is the first that stands under an id.
pub open spec fn stands_under(g: GraphView, id: Seq<char>, node: NodeView) -> bool {
    exists|i: int|
        0 <= i < g.ids.len() && #[trigger] g.ids[i] == id && g.nodes[i] == node && forall|j: int|
            0 <= j < i ==> #[trigger] g.ids[j] != id
}

/// A graph gives for an id the node that stands under it, and none exactly when
/// the id is not among its ids.
pub proof fn nodes_are_found_by_id(g: GraphView, id: Seq<char>)
    ensures
        g.node(id) is None <==> !g.ids.contains(id),
        g.node(id) matches Some(n) ==> stands_under(g, id, n),
{
    lemma_position(g.ids, id);
    if let Some(i) = node_position(g.ids, id) {
        assert(g.ids[i] == id);
    }
}

proof fn lemma_position(ids: Seq<Seq<char>>, id: Seq<char>)
    ensures
        node_position(ids, id) is None <==> !ids.contains(id),
        node_position(ids, id) matches Some(i) ==> 0 <= i < ids.len() && ids[i] == id && forall|
            j: int,
        | 0 <= j < i ==> #[trigger] ids[j] != id,
    decreases ids.len(),
{
    if ids.len() > 0 {
        let short = ids.drop_last();
        let n = ids.len() - 1;
        lemma_position(short, id);
        match node_position(short, id) {
            Some(i) => {
                assert(ids[i] == id);
                assert forall|j: int| 0 <= j < i implies #[trigger] ids[j] != id by {
                    assert(short[j] != id);
                }
            },
            None => {
                assert forall|j: int| 0 <= j < n implies #[trigger] ids[j] != id by {
                    assert(short[j] == ids[j]);
                }
                if ids[n] == id {
                    assert(ids.contains(id));
                }
            },
        }
    }
}

/// Whether the parent of a credential signed it: a group by as many distinct
/// keys as its threshold, any other node by one.
pub open spec fn granted(g: GraphView, cred: CredentialView) -> bool {
    g.ids.contains(cred.parent) && forall|parent: NodeView| #[trigger]
        stands_under(g, cred.parent, parent) ==> {
            let by = signers(cred.signatures, parent, SigningDomain::Delegation, cred.bytes()).len();
            match parent.kind {
                KindView::ThresholdGroup { threshold, .. } => by >= threshold,
                _ => by >= 1,
            }
        }
}

/// A credential verifies exactly when its parent stands in the graph and signed
/// it with enough distinct keys.
pub proof fn credentials_verify_when_the_parent_signed(g: GraphView, cred: CredentialView)
    ensures
        g.credential_check(cred) is Ok <==> granted(g, cred),
{
    nodes_are_found_by_id(g, cred.parent);
    if let Some(parent) = g.node(cred.parent) {
        signers_are_distinct_keys(
            cred.signatures,
            parent,
            SigningDomain::Delegation,
            cred.bytes(),
        );
        assert forall|other: NodeView| #[trigger] stands_under(g, cred.parent, other) implies other
            == parent by {
            let i = choose|i: int|
                0 <= i < g.ids.len() && #[trigger] g.ids[i] == cred.parent && g.nodes[i] == other
                    && forall|j: int| 0 <= j < i ==> #[trigger] g.ids[j] != cred.parent;
            let k = choose|k: int|
                0 <= k < g.ids.len() && #[trigger] g.ids[k] == cred.parent && g.nodes[k] == parent
                    && forall|j: int| 0 <= j < k ==> #[trigger] g.ids[j] != cred.parent;
            assert(i == k);
        }
        assert(stands_under(g, cred.parent, parent));
    }
}

/// Whether a trust list entry is in force: from its start on, and until just
/// before it was superseded.
pub open spec fn current(e: TrustListEntry, t: Timestamp) -> bool {
    not_later(e.not_before, t) && (e.superseded_at matches Some(end) ==> !not_later(end, t))
}

/// Whether a witness attested a root under the key it is registered with.
pub open spec fn attested(
    attestations: Seq<WitnessAttestation>,
    node: Seq<char>,
    witnesses: TextMap<PublicKey>,
    witness: Seq<char>,
) -> bool {
    exists|i: int|
        0 <= i < attestations.len() && (#[trigger] attestations[i]).witness@ == witness && (
        witnesses.at(witness) matches Some(key) && sound_under(
            attestations[i].slot@,
            SigningDomain::MasterListWitness,
            witness_bytes(node, attestations[i].at),
            key@,
        ))
}

proof fn lemma_holding(
    attestations: Seq<WitnessAttestation>,
    node: Seq<char>,
    witnesses: TextMap<PublicKey>,
    witness: Seq<char>,
)
    ensures
        holding_witnesses(attestations, node, witnesses).contains(witness) <==> attested(
            attestations,
            node,
            witnesses,
            witness,
        ),
    decreases attestations.len(),
{
    if attestations.len() > 0 {
        let short = attestations.drop_last();
        let n = attestations.len() - 1;
        let a = attestations[n];
        lemma_holding(short, node, witnesses, witness);
        if let Some(key) = witnesses.at(a.witness@) {
            slots_pass_when_the_key_accepts(
                a.slot@,
                SigningDomain::MasterListWitness,
                witness_bytes(node, a.at),
                key@,
            );
        }
        if attested(short, node, witnesses, witness) {
            let i = choose|i: int|
                0 <= i < short.len() && (#[trigger] short[i]).witness@ == witness && (
                witnesses.at(witness) matches Some(key) && sound_under(
                    short[i].slot@,
                    SigningDomain::MasterListWitness,
                    witness_bytes(node, short[i].at),
                    key@,
                ));
            assert(attestations[i].witness@ == witness);
        }
        if attested(attestations, node, witnesses, witness) {
            let i = choose|i: int|
                0 <= i < attestations.len() && (#[trigger] attestations[i]).witness@ == witness && (
                witnesses.at(witness) matches Some(key) && sound_under(
                    attestations[i].slot@,
                    SigningDomain::MasterListWitness,
                    witness_bytes(node, attestations[i].at),
                    key@,
                ));
            if i < n {
                assert(short[i].witness@ == witness);
            }
        }
    }
}

/// The witnesses whose attestation of a root is sound, each once.
pub open spec fn attesting(
    attestations: Seq<WitnessAttestation>,
    node: Seq<char>,
    witnesses: TextMap<PublicKey>,
) -> Set<Seq<char>> {
    attestations.map_values(|a: WitnessAttestation| a.witness@).to_set().filter(
        |w: Seq<char>| attested(attestations, node, witnesses, w),
    )
}

proof fn lemma_attesting(
    attestations: Seq<WitnessAttestation>,
    node: Seq<char>,
    witnesses: TextMap<PublicKey>,
)
    ensures
        holding_witnesses(attestations, node, witnesses) == attesting(
            attestations,
            node,
            witnesses,
        ),
{
    let held = holding_witnesses(attestations, node, witnesses);
    let by = attesting(attestations, node, witnesses);
    let all = attestations.map_values(|a: WitnessAttestation| a.witness@);
    assert forall|w: Seq<char>| held.contains(w) == by.contains(w) by {
        lemma_holding(attestations, node, witnesses, w);
        if attested(attestations, node, witnesses, w) {
            let i = choose|i: int|
                0 <= i < attestations.len() && (#[trigger] attestations[i]).witness@ == w && (
                witnesses.at(w) matches Some(key) && sound_under(
                    attestations[i].slot@,
                    SigningDomain::MasterListWitness,
                    witness_bytes(node, attestations[i].at),
                    key@,
                ));
            assert(all[i] == w);
        }
    }
    assert(held =~= by);
}

/// Whether a bundle anchors a root: some trust list has a current entry for it,
/// and on the master list at least the quorum of distinct witnesses attest it.
pub open spec fn anchored(bundle: AnchorBundle, root: Seq<char>, at: Timestamp) -> bool {
    &&& exists|i: int|
        0 <= i < bundle.trust_lists@.len() && ((
        #[trigger] bundle.trust_lists@[i]).entries.at(root) matches Some(e) && current(e, at))
    &&& bundle.master.entries.at(root) matches Some(e) && attesting(
        e.attestations@,
        e.node@,
        bundle.master.witnesses,
    ).len() >= bundle.master.m
}

/// A bundle accepts a root at a moment exactly when it anchors it.
pub proof fn anchors_need_list_and_witnesses(bundle: AnchorBundle, root: Seq<char>, at: Timestamp)
    ensures
        bundle.anchors(root, at) is Ok <==> anchored(bundle, root, at),
{
    if let Some(e) = bundle.master.entries.at(root) {
        lemma_attesting(e.attestations@, e.node@, bundle.master.witnesses);
    }
    assert forall|i: int| 0 <= i < bundle.trust_lists@.len() implies (
    #[trigger] bundle.trust_lists@[i]).accepts(root, at) == (bundle.trust_lists@[i].entries.at(
        root,
    ) matches Some(e) && current(e, at)) by {}
}

/// Whether a list of positions is a path from one node to another: each
/// delegation starts where the one before it ended, and no node comes twice.
pub open spec fn connects(
    edges: Seq<CredentialView>,
    from: Seq<char>,
    to: Seq<char>,
    path: Seq<int>,
) -> bool {
    &&& forall|k: int| 0 <= k < path.len() ==> 0 <= #[trigger] path[k] < edges.len()
    &&& path.len() == 0 ==> from == to
    &&& path.len() > 0 ==> edges[path[0]].parent == from && edges[path[path.len() - 1]].child == to
    &&& forall|k: int|
        0 < k < path.len() ==> edges[#[trigger] path[k]].parent == edges[path[k - 1]].child
    &&& forall|k: int| 0 <= k < path.len() ==> edges[#[trigger] path[k]].child != from
    &&& forall|j: int, k: int|
        0 <= j < k < path.len() ==> edges[#[trigger] path[j]].child != edges[
            #[trigger] path[k]].child
}

proof fn lemma_walk(edges: Seq<CredentialView>, from: Seq<char>, path: Seq<int>)
    ensures
        is_walk(edges, from, path) <==> (forall|k: int|
            0 <= k < path.len() ==> 0 <= #[trigger] path[k] < edges.len()) && (path.len() > 0
            ==> edges[path[0]].parent == from) && (forall|k: int|
            0 < k < path.len() ==> edges[#[trigger] path[k]].parent == edges[path[k - 1]].child),
    decreases path.len(),
{
    if path.len() > 0 {
        let short = path.drop_last();
        let n = path.len() - 1;
        lemma_walk(edges, from, short);
        if is_walk(edges, from, path) {
            assert forall|k: int| 0 <= k < path.len() implies 0 <= #[trigger] path[k]
                < edges.len() by {
                if k < n {
                    assert(short[k] == path[k]);
                }
            }
            if n > 0 {
                assert(short[0] == path[0]);
            }
            assert forall|k: int| 0 < k < path.len() implies edges[#[trigger] path[k]].parent
                == edges[path[k - 1]].child by {
                if k < n {
                    assert(short[k] == path[k] && short[k - 1] == path[k - 1]);
                }
            }
        }
        if (forall|k: int| 0 <= k < path.len() ==> 0 <= #[trigger] path[k] < edges.len())
            && edges[path[0]].parent == from && (forall|k: int|
            0 < k < path.len() ==> edges[#[trigger] path[k]].parent == edges[path[k - 1]].child) {
            assert forall|k: int| 0 <= k < short.len() implies 0 <= #[trigger] short[k]
                < edges.len() by {
                assert(path[k] == short[k]);
            }
            assert forall|k: int| 0 < k < short.len() implies edges[#[trigger] short[k]].parent
                == edges[short[k - 1]].child by {
                assert(path[k] == short[k]);
            }
            assert(is_walk(edges, from, short));
            assert(path[n] == path.last());
        }
    }
}

/// A path without repetition is what connects two nodes.
pub proof fn simple_walks_connect(
    edges: Seq<CredentialView>,
    from: Seq<char>,
    to: Seq<char>,
    path: Seq<int>,
)
    ensures
        is_simple(edges, from, path) && walk_end(edges, from, path) == to <==> connects(
            edges,
            from,
            to,
            path,
        ),
{
    lemma_walk(edges, from, path);
    let seen = visited(edges, from, path);
    assert(seen[0] == from);
    assert forall|k: int| 0 <= k < path.len() implies seen[k + 1] == edges[#[trigger] path[k]].child by {}
    if seen.no_duplicates() {
        assert forall|k: int| 0 <= k < path.len() implies edges[#[trigger] path[k]].child != from by {
            assert(seen[k + 1] != seen[0]);
        }
        assert forall|j: int, k: int| 0 <= j < k < path.len() implies edges[
            #[trigger] path[j]].child != edges[#[trigger] path[k]].child by {
            assert(seen[j + 1] != seen[k + 1]);
        }
    }
    if connects(edges, from, to, path) {
        assert forall|a: int, b: int| 0 <= a < seen.len() && 0 <= b < seen.len() && a
            != b implies seen[a] != seen[b] by {
            if a > 0 {
                assert(seen[a] == edges[path[a - 1]].child);
            }
            if b > 0 {
                assert(seen[b] == edges[path[b - 1]].child);
            }
        }
    }
}

/// The scope that the delegation before a hop conveyed; a root's is unbounded.
pub open spec fn before_hop(g: GraphView, path: Seq<int>, k: int) -> ScopeView {
    if k <= 0 {
        ScopeView::unconstrained()
    } else {
        g.edges[path[k - 1]].scope
    }
}

/// Whether two scopes agree on their layers, whatever their conditions.
spec fn same_layers(a: ScopeView, b: ScopeView) -> bool {
    a.authority == b.authority && a.profile_version == b.profile_version && a.product_group
        == b.product_group && a.window == b.window
}

proof fn lemma_hop(s: ScopeView, b: ScopeView, child: ScopeView, act: RequestView)
    requires
        same_layers(s, b),
    ensures
        s.narrow_to(child) is Ok <==> narrows(b, child),
        s.narrow_to(child) matches Ok(t) ==> same_layers(t, child) && (permits(t, act) <==> permits(
            child,
            act,
        )) && (permits(child, act) ==> permits(s, act)) && (forall|c: ConditionView| #[trigger]
            t.conditions.contains(c) <==> s.conditions.contains(c) || child.conditions.contains(c)),
{
    narrowing_is_inclusion(s, child, act);
}

proof fn lemma_path_scope(g: GraphView, path: Seq<int>, n: int, act: RequestView)
    requires
        0 <= n <= path.len(),
    ensures
        g.path_scope(path, n) is Ok <==> forall|k: int|
            0 <= k < n ==> granted(g, g.edges[#[trigger] path[k]]) && narrows(
                before_hop(g, path, k),
                g.edges[path[k]].scope,
            ),
        g.path_scope(path, n) matches Ok(s) ==> same_layers(s, before_hop(g, path, n)),
    decreases n,
{
    if n > 0 {
        lemma_path_scope(g, path, n - 1, act);
        let e = g.edges[path[n - 1]];
        credentials_verify_when_the_parent_signed(g, e);
        if let Ok(s) = g.path_scope(path, n - 1) {
            lemma_hop(s, before_hop(g, path, n - 1), e.scope, act);
        }
        if forall|k: int|
            0 <= k < n ==> granted(g, g.edges[#[trigger] path[k]]) && narrows(
                before_hop(g, path, k),
                g.edges[path[k]].scope,
            ) {
            assert(granted(g, g.edges[path[n - 1]]));
        }
    }
}

proof fn lemma_path_permits(g: GraphView, path: Seq<int>, n: int, act: RequestView)
    requires
        0 <= n <= path.len(),
        g.path_scope(path, n) is Ok,
    ensures
        permits(g.path_scope(path, n)->Ok_0, act) <==> forall|k: int|
            0 <= k < n ==> permits(g.edges[#[trigger] path[k]].scope, act),
    decreases n,
{
    if n > 0 {
        lemma_path_permits(g, path, n - 1, act);
        lemma_path_scope(g, path, n - 1, act);
        let e = g.edges[path[n - 1]];
        let s = g.path_scope(path, n - 1)->Ok_0;
        let t = g.path_scope(path, n)->Ok_0;
        lemma_hop(s, before_hop(g, path, n - 1), e.scope, act);
        assert(permits(t, act) <==> permits(e.scope, act));
        if forall|k: int| 0 <= k < n ==> permits(g.edges[#[trigger] path[k]].scope, act) {
            assert(permits(g.edges[path[n - 1]].scope, act));
        }
    }
}

proof fn lemma_path_conditions(g: GraphView, path: Seq<int>, n: int, c: ConditionView)
    requires
        0 <= n <= path.len(),
        g.path_scope(path, n) is Ok,
    ensures
        (g.path_scope(path, n)->Ok_0).conditions.contains(c) <==> exists|k: int|
            0 <= k < n && g.edges[#[trigger] path[k]].scope.conditions.contains(c),
    decreases n,
{
    if n > 0 {
        lemma_path_conditions(g, path, n - 1, c);
        let e = g.edges[path[n - 1]];
        let s = g.path_scope(path, n - 1)->Ok_0;
        let act = arbitrary();
        lemma_path_scope(g, path, n - 1, act);
        lemma_hop(s, before_hop(g, path, n - 1), e.scope, act);
        if e.scope.conditions.contains(c) {
            assert(g.edges[path[n - 1]].scope.conditions.contains(c));
        }
        if s.conditions.contains(c) {
            let k = choose|k: int|
                0 <= k < n - 1 && g.edges[#[trigger] path[k]].scope.conditions.contains(c);
            assert(g.edges[path[k]].scope.conditions.contains(c));
        }
    }
}

/// The effective scope of a path: there is one exactly when every credential on
/// it is granted and every hop narrows the one before. It lets through what
/// every hop lets through, and carries the conditions of all of them.
pub proof fn paths_convey_what_every_hop_does(g: GraphView, path: Seq<int>, act: RequestView)
    ensures
        g.path_scope(path, path.len() as int) is Ok <==> forall|k: int|
            0 <= k < path.len() ==> granted(g, g.edges[#[trigger] path[k]]) && narrows(
                before_hop(g, path, k),
                g.edges[path[k]].scope,
            ),
        g.path_scope(path, path.len() as int) matches Ok(s) ==> (permits(s, act) <==> forall|
            k: int,
        | 0 <= k < path.len() ==> permits(g.edges[#[trigger] path[k]].scope, act)) && (forall|
            c: ConditionView,
        | #[trigger]
            s.conditions.contains(c) <==> exists|k: int|
                0 <= k < path.len() && g.edges[#[trigger] path[k]].scope.conditions.contains(c)),
{
    lemma_path_scope(g, path, path.len() as int, act);
    if let Ok(s) = g.path_scope(path, path.len() as int) {
        lemma_path_permits(g, path, path.len() as int, act);
        assert forall|c: ConditionView| #[trigger] s.conditions.contains(c) <==> exists|k: int|
            0 <= k < path.len() && g.edges[#[trigger] path[k]].scope.conditions.contains(c) by {
            lemma_path_conditions(g, path, path.len() as int, c);
        }
    }
}

/// Whether a path carries the authority for an act from a root to a node: the
/// root is one, it is anchored at the moment of the act, the path connects the
/// two, every credential on it is granted, every hop narrows the one before it
/// and lets the act through, and the act meets the conditions of every hop.
pub open spec fn carries(
    g: GraphView,
    act: RequestView,
    bundle: AnchorBundle,
    root: Seq<char>,
    end: Seq<char>,
    path: Seq<int>,
) -> bool {
    &&& is_a_root(g.nodes, root)
    &&& anchored(bundle, root, act.at)
    &&& connects(g.edges, root, end, path)
    &&& forall|k: int|
        0 <= k < path.len() ==> granted(g, g.edges[#[trigger] path[k]]) && narrows(
            before_hop(g, path, k),
            g.edges[path[k]].scope,
        ) && permits(g.edges[path[k]].scope, act)
    &&& forall|k: int, c: ConditionView|
        0 <= k < path.len() && #[trigger] g.edges[path[k]].scope.conditions.contains(c) ==> meets(
            act,
            c,
        )
}

/// Some scope makes a path serve exactly when the path carries the authority.
pub proof fn serving_paths_carry(
    g: GraphView,
    act: RequestView,
    bundle: AnchorBundle,
    root: Seq<char>,
    end: Seq<char>,
    path: Seq<int>,
)
    ensures
        (exists|s: ScopeView| serves(g, act, bundle, root, end, path, s)) <==> carries(
            g,
            act,
            bundle,
            root,
            end,
            path,
        ),
{
    roots_are_the_nodes_of_kind_root(g.nodes, root);
    anchors_need_list_and_witnesses(bundle, root, act.at);
    simple_walks_connect(g.edges, root, end, path);
    paths_convey_what_every_hop_does(g, path, act);
    assert forall|k: int| 0 <= k < path.len() implies g.credential_check(
        g.edges[#[trigger] path[k]],
    ) is Ok == granted(g, g.edges[path[k]]) by {
        credentials_verify_when_the_parent_signed(g, g.edges[path[k]]);
    }
    if let Ok(s) = g.path_scope(path, path.len() as int) {
        scopes_admit_on_every_layer(s, act);
        the_first_unmet_condition_is_found(s.conditions, act);
        if first_failing(s.conditions, act) is None {
            assert forall|k: int, c: ConditionView|
                0 <= k < path.len() && #[trigger] g.edges[path[k]].scope.conditions.contains(
                    c,
                ) implies meets(act, c) by {
                assert(s.conditions.contains(c));
                assert(meets(act, s.conditions[s.conditions.index_of(c)]));
            }
        }
        if carries(g, act, bundle, root, end, path) {
            assert forall|i: int| 0 <= i < s.conditions.len() implies meets(
                act,
                #[trigger] s.conditions[i],
            ) by {
                assert(s.conditions.contains(s.conditions[i]));
                let k = choose|k: int|
                    0 <= k < path.len() && g.edges[#[trigger] path[k]].scope.conditions.contains(
                        s.conditions[i],
                    );
                assert(g.edges[path[k]].scope.conditions.contains(s.conditions[i]));
            }
            assert(serves(g, act, bundle, root, end, path, s));
        }
    }
}

/// A key resolves exactly when some path carries the authority for the act from
/// some node of kind root to the node that owns the key; the path that is found
/// is one of these.
pub proof fn keys_resolve_to_anchored_roots(
    g: GraphView,
    key_id: Seq<char>,
    act: RequestView,
    bundle: AnchorBundle,
)
    ensures
        g.resolution(key_id, act, bundle) is Found <==> (owner_of(g.nodes, key_id) matches Some(end)
            && exists|root: Seq<char>, path: Seq<int>| #[trigger]
            carries(g, act, bundle, root, end, path)),
        g.resolution(key_id, act, bundle) matches Search::Found { root, path, scope } ==> carries(
            g,
            act,
            bundle,
            root,
            owner_of(g.nodes, key_id)->0,
            path,
        ),
{
    crate::graph::search::resolution_is_sound(g, key_id, act, bundle);
    if let Search::Found { root, path, scope } = g.resolution(key_id, act, bundle) {
        let end = owner_of(g.nodes, key_id)->0;
        assert(serves(g, act, bundle, root, end, path, scope));
        serving_paths_carry(g, act, bundle, root, end, path);
    }
    if let Some(end) = owner_of(g.nodes, key_id) {
        if exists|root: Seq<char>, path: Seq<int>| #[trigger]
            carries(g, act, bundle, root, end, path) {
            let (root, path) = choose|root: Seq<char>, path: Seq<int>| #[trigger]
                carries(g, act, bundle, root, end, path);
            serving_paths_carry(g, act, bundle, root, end, path);
            let s = choose|s: ScopeView| serves(g, act, bundle, root, end, path, s);
            crate::graph::search::resolution_is_complete(g, key_id, act, bundle, root, end, path, s);
        }
    }
}

/// Whether a list of positions leads from one node to another, be it over a
/// node twice.
pub open spec fn leads(
    edges: Seq<CredentialView>,
    from: Seq<char>,
    to: Seq<char>,
    walk: Seq<int>,
) -> bool {
    &&& forall|k: int| 0 <= k < walk.len() ==> 0 <= #[trigger] walk[k] < edges.len()
    &&& walk.len() == 0 ==> from == to
    &&& walk.len() > 0 ==> edges[walk[0]].parent == from && edges[walk[walk.len() - 1]].child == to
    &&& forall|k: int|
        0 < k < walk.len() ==> edges[#[trigger] walk[k]].parent == edges[walk[k - 1]].child
}

/// A delegation is refused exactly when an end of it is not in the graph, its
/// scope lists nothing on some layer, nobody signed it, or the delegations in
/// the graph lead back from its child to its parent.
pub proof fn edges_are_refused_for_a_reason(g: GraphView, cred: CredentialView)
    ensures
        g.edge_error(cred) is Some <==> !g.ids.contains(cred.parent) || !g.ids.contains(cred.child)
            || cred.scope.authority == Some(Seq::<Seq<char>>::empty())
            || cred.scope.profile_version == Some(Seq::<Seq<char>>::empty())
            || cred.scope.product_group == Some(Seq::<Seq<char>>::empty())
            || cred.signatures.len() == 0 || exists|walk: Seq<int>| #[trigger]
            leads(g.edges, cred.child, cred.parent, walk),
{
    nodes_are_found_by_id(g, cred.parent);
    nodes_are_found_by_id(g, cred.child);
    assert forall|walk: Seq<int>| #[trigger] leads(g.edges, cred.child, cred.parent, walk) == (
    is_walk(g.edges, cred.child, walk) && walk_end(g.edges, cred.child, walk) == cred.parent) by {
        lemma_walk(g.edges, cred.child, walk);
    }
    if reachable(g.edges, cred.child, cred.parent) {
        let walk = choose|walk: Seq<int>| #[trigger]
            is_walk(g.edges, cred.child, walk) && walk_end(g.edges, cred.child, walk)
                == cred.parent;
        assert(leads(g.edges, cred.child, cred.parent, walk));
    }
    if exists|walk: Seq<int>| #[trigger] leads(g.edges, cred.child, cred.parent, walk) {
        let walk = choose|walk: Seq<int>| #[trigger]
            leads(g.edges, cred.child, cred.parent, walk);
        assert(is_walk(g.edges, cred.child, walk));
    }
    let none = Seq::<Seq<char>>::empty();
    assert(cred.scope.authority is Some && (cred.scope.authority->0).len() == 0 ==> (
    cred.scope.authority->0) =~= none);
    assert(cred.scope.profile_version is Some && (cred.scope.profile_version->0).len() == 0 ==> (
    cred.scope.profile_version->0) =~= none);
    assert(cred.scope.product_group is Some && (cred.scope.product_group->0).len() == 0 ==> (
    cred.scope.product_group->0) =~= none);
}

/// A node goes in between the ids before its own and the others, so that ids in
/// ascending order stay so.
pub proof fn nodes_stay_in_order(ids: Seq<Seq<char>>, id: Seq<char>)
    requires
        forall|i: int, j: int|
            0 <= i < j < ids.len() ==> text_lt(#[trigger] ids[i], #[trigger] ids[j]),
        !ids.contains(id),
    ensures
        0 <= insert_position(ids, id) <= ids.len(),
        forall|i: int, j: int|
            0 <= i < j < ids.len() + 1 ==> text_lt(
                #[trigger] ids.insert(insert_position(ids, id), id)[i],
                #[trigger] ids.insert(insert_position(ids, id), id)[j],
            ),
{
    lemma_insert_position(ids, id);
    let p = insert_position(ids, id);
    let all = ids.insert(p, id);
    assert forall|j: int| p <= j < ids.len() implies text_lt(id, #[trigger] ids[j]) by {
        assert(ids[p] != id);
        lemma_text_lt_total(ids[p], id);
        if p < j {
            assert(text_lt(ids[p], ids[j]));
            lemma_text_lt_transitive(id, ids[p], ids[j]);
        }
    }
    assert forall|i: int, j: int| 0 <= i < j < all.len() implies text_lt(
        #[trigger] all[i],
        #[trigger] all[j],
    ) by {
        if i < p {
            assert(all[i] == ids[i]);
        } else if i > p {
            assert(all[i] == ids[i - 1]);
        }
        if j < p {
            assert(all[j] == ids[j]);
        } else if j > p {
            assert(all[j] == ids[j - 1]);
        }
    }
}

/// A master list accepts a root exactly when it has an entry for it that at
/// least the quorum of distinct witnesses attest.
pub proof fn master_lists_accept_by_their_witnesses(list: MasterList, root: Seq<char>)
    ensures
        list.spec_accepts(root) <==> (list.entries.at(root) matches Some(e) && attesting(
            e.attestations@,
            e.node@,
            list.witnesses,
        ).len() >= list.m),
{
    if let Some(e) = list.entries.at(root) {
        lemma_attesting(e.attestations@, e.node@, list.witnesses);
    }
}

} // verus!
