//! What signed objects promise: each counts exactly when the party that it
//! names signed what it says.

use vstd::prelude::*;

use crate::accreditation::AccreditationObject;
use crate::declaration::InteropDeclaration;
use crate::device::{DeviceCertificate, SlotCredential};
use crate::digest::sha256_of;
use crate::graph::{directory_agrees, directory_of, node_id_of, GraphView, KeyDirectory, NodeView};
use crate::grid::{SignedPolicy, SignedSpine};
use crate::hierarchy::{link_error, CalibrationCertificate, ChainLink};
use crate::keyring::KeyView;
use crate::laws::scopes::{
    meets, permits, scopes_admit_on_every_layer, the_first_unmet_condition_is_found,
};
use crate::laws::signatures::{slots_pass_when_the_key_accepts, sound, sound_under};
use crate::laws::trust::{
    first_registered, nodes_are_found_by_id, nodes_give_the_first_registration, stands_under,
};
use crate::laws::verification::{sound_in, sound_slots_have_graph_keys};
use crate::revoke::{quorum_bytes, verifying_keys, QuorumView};
use crate::s13::{authority_payload, NonRepudiableResponse, SignedS13Request, SignedS13Response};
use crate::scheme::ClubList;
use crate::scope::RequestView;
use crate::sign::{SigningDomain, SlotView};
use crate::signed_profile::SignedProfile;
use crate::signer::signer_check;
use crate::sovereign::{ClaimClass, SovereignAttestation};
use crate::transport::{relay_bytes, RelayedEvidence};

verus! {

/// Whether a slot holds a signature of a payload under a key that is registered
/// to the node that a text names.
pub open spec fn signs_for(
    g: GraphView,
    name: Seq<char>,
    slot: SlotView,
    domain: SigningDomain,
    payload: Seq<u8>,
) -> bool {
    node_id_of(name) is Some && exists|node: NodeView, key: KeyView|
        #![trigger stands_under(g, node_id_of(name)->0, node), first_registered(
            node,
            slot.key_id,
            key,
        )]
        stands_under(g, node_id_of(name)->0, node) && first_registered(node, slot.key_id, key)
            && sound_under(slot, domain, payload, key)
}

proof fn lemma_one_stands(g: GraphView, id: Seq<char>, a: NodeView, b: NodeView)
    requires
        stands_under(g, id, a),
        stands_under(g, id, b),
    ensures
        a == b,
{
    let i = choose|i: int|
        0 <= i < g.ids.len() && #[trigger] g.ids[i] == id && g.nodes[i] == a && forall|j: int|
            0 <= j < i ==> #[trigger] g.ids[j] != id;
    let k = choose|k: int|
        0 <= k < g.ids.len() && #[trigger] g.ids[k] == id && g.nodes[k] == b && forall|j: int|
            0 <= j < k ==> #[trigger] g.ids[j] != id;
    assert(i == k);
}

/// A signature in the name of a node counts exactly when the node stands in the
/// graph, has a key under the slot's id, and that key accepts the signature.
/// What is given back is the node's id.
pub proof fn signatures_count_for_their_node(
    g: GraphView,
    name: Seq<char>,
    role: Seq<char>,
    missing: Seq<char>,
    slot: SlotView,
    domain: SigningDomain,
    payload: Seq<u8>,
)
    ensures
        signer_check(g, name, role, missing, slot, domain, payload) is Ok <==> signs_for(
            g,
            name,
            slot,
            domain,
            payload,
        ),
        signer_check(g, name, role, missing, slot, domain, payload) matches Ok(id) ==> node_id_of(
            name,
        ) == Some(id),
{
    if let Some(id) = node_id_of(name) {
        nodes_are_found_by_id(g, id);
        if let Some(node) = g.node(id) {
            if let Some(key) = g.key_of(id, slot.key_id) {
                nodes_give_the_first_registration(node, slot.key_id, key);
                slots_pass_when_the_key_accepts(slot, domain, payload, key);
            }
        }
        if signs_for(g, name, slot, domain, payload) {
            let (n, k) = choose|node: NodeView, key: KeyView|
                #![trigger stands_under(g, node_id_of(name)->0, node), first_registered(
                    node,
                    slot.key_id,
                    key,
                )]
                stands_under(g, node_id_of(name)->0, node) && first_registered(
                    node,
                    slot.key_id,
                    key,
                ) && sound_under(slot, domain, payload, key);
            let i = choose|i: int|
                0 <= i < g.ids.len() && #[trigger] g.ids[i] == id && g.nodes[i] == n && forall|
                    j: int,
                | 0 <= j < i ==> #[trigger] g.ids[j] != id;
            assert(g.ids[i] == id);
            assert(g.ids.contains(id));
            lemma_one_stands(g, id, n, g.node(id)->0);
            nodes_give_the_first_registration(n, slot.key_id, k);
            slots_pass_when_the_key_accepts(slot, domain, payload, k);
        }
    }
}

/// A grant verifies exactly when its authority signed it as an accreditation.
pub proof fn grants_are_signed_by_the_authority(x: AccreditationObject, g: GraphView)
    ensures
        x.check(g) is Ok <==> signs_for(
            g,
            x.authority@,
            x.signature@,
            SigningDomain::Accreditation,
            x.bytes(),
        ),
{
    signatures_count_for_their_node(
        g,
        x.authority@,
        "accreditation authority: "@,
        "accreditation authority `"@ + x.authority@ + "` has no such key"@,
        x.signature@,
        SigningDomain::Accreditation,
        x.bytes(),
    );
}

/// A declaration verifies exactly when its declarer signed it as one.
pub proof fn declarations_are_signed_by_the_declarer(x: InteropDeclaration, g: GraphView)
    ensures
        x.check(g) is Ok <==> signs_for(
            g,
            x.declarer@,
            x.signature@,
            SigningDomain::InteropDeclaration,
            x.bytes(),
        ),
{
    signatures_count_for_their_node(
        g,
        x.declarer@,
        "declaration declarer: "@,
        "declaration declarer `"@ + x.declarer@ + "` has no such key"@,
        x.signature@,
        SigningDomain::InteropDeclaration,
        x.bytes(),
    );
}

/// A device certificate verifies exactly when its manufacturer signed it, and a
/// slot credential exactly when its authority did.
pub proof fn devices_are_certified_by_their_makers(
    x: DeviceCertificate,
    c: SlotCredential,
    g: GraphView,
)
    ensures
        x.check(g) is Ok <==> signs_for(
            g,
            x.manufacturer@,
            x.signature@,
            SigningDomain::Delegation,
            x.bytes(),
        ),
        c.check(g) is Ok <==> signs_for(
            g,
            c.authority@,
            c.signature@,
            SigningDomain::Delegation,
            c.bytes(),
        ),
{
    signatures_count_for_their_node(
        g,
        x.manufacturer@,
        "device manufacturer: "@,
        "manufacturer `"@ + x.manufacturer@ + "` has no such key"@,
        x.signature@,
        SigningDomain::Delegation,
        x.bytes(),
    );
    signatures_count_for_their_node(
        g,
        c.authority@,
        "slot authority: "@,
        "slot authority `"@ + c.authority@ + "` has no such key"@,
        c.signature@,
        SigningDomain::Delegation,
        c.bytes(),
    );
}

/// A policy verifies exactly when its own authority signed it, and a spine
/// exactly when its custodian signed the digest of its version and root.
pub proof fn grids_are_signed_by_their_keepers(p: SignedPolicy, s: SignedSpine, g: GraphView)
    ensures
        p.check(g) is Ok <==> signs_for(
            g,
            p.policy.authority@,
            p.signature@,
            SigningDomain::SegmentPolicy,
            p.policy.bytes(),
        ),
        s.check(g) is Ok <==> signs_for(
            g,
            s.custodian@,
            s.signature@,
            SigningDomain::SpineRoot,
            sha256_of(vstd::bytes::spec_u64_to_le_bytes(s.spine.version) + s.spine.root@),
        ),
{
    signatures_count_for_their_node(
        g,
        p.policy.authority@,
        "policy authority: "@,
        "policy `"@ + p.policy.policy_id@ + "` references authority `"@ + p.policy.authority@
            + "` with no such key"@,
        p.signature@,
        SigningDomain::SegmentPolicy,
        p.policy.bytes(),
    );
    signatures_count_for_their_node(
        g,
        s.custodian@,
        "spine custodian: "@,
        "spine custodian `"@ + s.custodian@ + "` has no such key"@,
        s.signature@,
        SigningDomain::SpineRoot,
        s.spine.spec_digest(),
    );
}

/// A link of a chain verifies exactly when the parent that it is held against
/// signed it, and a calibration exactly when its laboratory did.
pub proof fn chains_are_signed_from_above(
    x: ChainLink,
    parent: Seq<char>,
    c: CalibrationCertificate,
    g: GraphView,
)
    ensures
        x.check(parent, g) is Ok <==> signs_for(
            g,
            parent,
            x.signature@,
            SigningDomain::Delegation,
            x.bytes(),
        ),
        c.check(g) is Ok <==> signs_for(
            g,
            c.laboratory@,
            c.signature@,
            SigningDomain::Calibration,
            c.bytes(),
        ),
{
    signatures_count_for_their_node(
        g,
        parent,
        "chain parent: "@,
        "chain parent `"@ + parent + "` has no such key"@,
        x.signature@,
        SigningDomain::Delegation,
        x.bytes(),
    );
    signatures_count_for_their_node(
        g,
        c.laboratory@,
        "calibration laboratory: "@,
        "calibration laboratory `"@ + c.laboratory@ + "` has no such key"@,
        c.signature@,
        SigningDomain::Calibration,
        c.bytes(),
    );
}

/// A link has no error exactly when the parent signed it, its scope lets the
/// act through on every layer, and the act meets each of its conditions.
pub proof fn links_admit_within_their_scope(
    link: ChainLink,
    position: int,
    parent: Seq<char>,
    act: RequestView,
    g: GraphView,
)
    ensures
        link_error(link, position, parent, act, g) is None <==> signs_for(
            g,
            parent,
            link.signature@,
            SigningDomain::Delegation,
            link.bytes(),
        ) && permits(link.scope@, act) && forall|i: int|
            0 <= i < link.scope@.conditions.len() ==> meets(
                act,
                #[trigger] link.scope@.conditions[i],
            ),
{
    reveal(link_error);
    signatures_count_for_their_node(
        g,
        parent,
        "chain parent: "@,
        "chain parent `"@ + parent + "` has no such key"@,
        link.signature@,
        SigningDomain::Delegation,
        link.bytes(),
    );
    scopes_admit_on_every_layer(link.scope@, act);
    the_first_unmet_condition_is_found(link.scope@.conditions, act);
}

/// A profile verifies exactly when its issuer signed it, and a club's list
/// exactly when the operator that it is held against did.
pub proof fn lists_are_signed_by_their_keepers(
    p: SignedProfile,
    c: ClubList,
    operator: Seq<char>,
    g: GraphView,
)
    ensures
        p.check(g) is Ok <==> signs_for(
            g,
            p.issuer@,
            p.signature@,
            SigningDomain::Profile,
            p.manifest.bytes(),
        ),
        c.check(operator, g) is Ok <==> signs_for(
            g,
            operator,
            c.signature@,
            SigningDomain::MasterListWitness,
            c.bytes(),
        ),
{
    signatures_count_for_their_node(
        g,
        p.issuer@,
        "profile issuer: "@,
        "profile issuer `"@ + p.issuer@ + "` has no such key"@,
        p.signature@,
        SigningDomain::Profile,
        p.manifest.bytes(),
    );
    signatures_count_for_their_node(
        g,
        operator,
        "club operator: "@,
        "club operator `"@ + operator + "` has no such key"@,
        c.signature@,
        SigningDomain::MasterListWitness,
        c.bytes(),
    );
}

/// A question verifies exactly when its requester signed it, and an answer
/// exactly when the custodian that it names did.
pub proof fn messages_are_signed_by_their_senders(
    q: SignedS13Request,
    a: SignedS13Response,
    g: GraphView,
)
    ensures
        q.check(g) is Ok <==> signs_for(
            g,
            q.requester@,
            q.signature@,
            SigningDomain::S13Message,
            q.request.bytes(),
        ),
        a.check(g) is Ok <==> signs_for(
            g,
            a.response.custodian@,
            a.signature@,
            SigningDomain::S13Message,
            a.response.bytes(),
        ),
{
    signatures_count_for_their_node(
        g,
        q.requester@,
        "s13 requester: "@,
        "s13 requester `"@ + q.requester@ + "` has no such key"@,
        q.signature@,
        SigningDomain::S13Message,
        q.request.bytes(),
    );
    signatures_count_for_their_node(
        g,
        a.response.custodian@,
        "s13 custodian: "@,
        "s13 custodian `"@ + a.response.custodian@ + "` has no such key"@,
        a.signature@,
        SigningDomain::S13Message,
        a.response.bytes(),
    );
}

/// A countersigned answer verifies at a place exactly when the custodian signed
/// the answer, it stands at that place, and the authority signed the answer
/// with its place.
pub proof fn countersigned_answers_hold_at_their_place(
    n: NonRepudiableResponse,
    g: GraphView,
    expected: u64,
)
    ensures
        n.check(g, expected) is Ok <==> signs_for(
            g,
            n.signed.response.custodian@,
            n.signed.signature@,
            SigningDomain::S13Message,
            n.signed.response.bytes(),
        ) && n.sequence == expected && signs_for(
            g,
            n.authority@,
            n.authority_signature@,
            SigningDomain::S13Message,
            authority_payload(n.signed.response, n.sequence),
        ),
{
    signatures_count_for_their_node(
        g,
        n.signed.response.custodian@,
        "s13 custodian: "@,
        "s13 custodian `"@ + n.signed.response.custodian@ + "` has no such key"@,
        n.signed.signature@,
        SigningDomain::S13Message,
        n.signed.response.bytes(),
    );
    signatures_count_for_their_node(
        g,
        n.authority@,
        "s13 authority: "@,
        "s13 authority `"@ + n.authority@ + "` has no such key"@,
        n.authority_signature@,
        SigningDomain::S13Message,
        authority_payload(n.signed.response, n.sequence),
    );
}

/// A relay verifies for bytes exactly when the hub signed their digest with the
/// two ends and the class, and the digest that it tells is theirs.
pub proof fn relays_are_signed_by_the_hub(x: RelayedEvidence, evidence: Seq<u8>, g: GraphView)
    ensures
        x.check(evidence, g) is Ok <==> signs_for(
            g,
            x.hub_id@,
            x.signature@,
            SigningDomain::HubRelay,
            relay_bytes(x.hub_id@, evidence, x.from@, x.to@, x.data_class@),
        ) && x.evidence_digest@ == sha256_of(evidence),
{
    signatures_count_for_their_node(
        g,
        x.hub_id@,
        "hub relay: "@,
        "hub `"@ + x.hub_id@ + "` has no such key"@,
        x.signature@,
        SigningDomain::HubRelay,
        relay_bytes(x.hub_id@, evidence, x.from@, x.to@, x.data_class@),
    );
}

/// Whether a member of a quorum signed a payload under the key that a directory
/// lists for it.
pub open spec fn member_signed(
    slots: Seq<SlotView>,
    payload: Seq<u8>,
    keys: KeyDirectory,
    key_id: Seq<char>,
) -> bool {
    exists|i: int|
        0 <= i < slots.len() && (#[trigger] slots[i]).key_id == key_id && sound(
            slots[i],
            SigningDomain::Quorum,
            payload,
            keys,
        )
}

/// The distinct keys under which some slot holds a sound signature.
pub open spec fn members_signed(slots: Seq<SlotView>, payload: Seq<u8>, keys: KeyDirectory) -> Set<
    Seq<char>,
> {
    slots.map_values(|s: SlotView| s.key_id).to_set().filter(
        |id: Seq<char>| member_signed(slots, payload, keys, id),
    )
}

proof fn lemma_verifying(
    slots: Seq<SlotView>,
    payload: Seq<u8>,
    keys: KeyDirectory,
    id: Seq<char>,
)
    ensures
        verifying_keys(slots, payload, keys).contains(id) <==> member_signed(
            slots,
            payload,
            keys,
            id,
        ),
    decreases slots.len(),
{
    if slots.len() > 0 {
        let short = slots.drop_last();
        let n = slots.len() - 1;
        lemma_verifying(short, payload, keys, id);
        if let Some(key) = keys.lookup(slots[n].key_id) {
            slots_pass_when_the_key_accepts(slots[n], SigningDomain::Quorum, payload, key);
        }
        if member_signed(short, payload, keys, id) {
            let i = choose|i: int|
                0 <= i < short.len() && (#[trigger] short[i]).key_id == id && sound(
                    short[i],
                    SigningDomain::Quorum,
                    payload,
                    keys,
                );
            assert(slots[i].key_id == id);
        }
        if member_signed(slots, payload, keys, id) {
            let i = choose|i: int|
                0 <= i < slots.len() && (#[trigger] slots[i]).key_id == id && sound(
                    slots[i],
                    SigningDomain::Quorum,
                    payload,
                    keys,
                );
            if i < n {
                assert(short[i].key_id == id);
            }
        }
    }
}

/// A quorum reaches its threshold for a statement exactly when at least as many
/// distinct keys signed the statement together with the quorum and the
/// threshold. A key that signed twice counts once.
pub proof fn quorums_count_distinct_members(q: QuorumView, statement: Seq<u8>, keys: KeyDirectory)
    ensures
        q.quorate(statement, keys) <==> members_signed(
            q.signatures,
            quorum_bytes(statement, q.quorum, q.threshold),
            keys,
        ).len() >= q.threshold,
{
    let payload = quorum_bytes(statement, q.quorum, q.threshold);
    let a = verifying_keys(q.signatures, payload, keys);
    let b = members_signed(q.signatures, payload, keys);
    let all = q.signatures.map_values(|s: SlotView| s.key_id);
    assert forall|id: Seq<char>| a.contains(id) == b.contains(id) by {
        lemma_verifying(q.signatures, payload, keys, id);
        if member_signed(q.signatures, payload, keys, id) {
            let i = choose|i: int|
                0 <= i < q.signatures.len() && (#[trigger] q.signatures[i]).key_id == id && sound(
                    q.signatures[i],
                    SigningDomain::Quorum,
                    payload,
                    keys,
                );
            assert(all[i] == id);
        }
    }
    assert(a =~= b);
}

/// An attestation verifies exactly when its service signed the statement and, if
/// it claims conformity, a quorum reached its threshold for the statement.
pub proof fn attestations_are_signed_by_the_service(x: SovereignAttestation, g: GraphView)
    ensures
        x.check(g) is Ok <==> signs_for(
            g,
            x.service@,
            x.signature@,
            SigningDomain::SovereignAttestation,
            x.statement.bytes(),
        ) && (x.statement.claim == ClaimClass::Conformity ==> (x.quorum matches Some(q)
            && members_signed(
            q@.signatures,
            quorum_bytes(x.statement.bytes(), q@.quorum, q@.threshold),
            directory_of(g),
        ).len() >= q@.threshold)),
{
    signatures_count_for_their_node(
        g,
        x.service@,
        "attestation service: "@,
        "attestation service `"@ + x.service@ + "` has no such key"@,
        x.signature@,
        SigningDomain::SovereignAttestation,
        x.statement.bytes(),
    );
    if let Some(q) = x.quorum {
        quorums_count_distinct_members(q@, x.statement.bytes(), directory_of(g));
    }
}

/// The members of a quorum that signed are those whose keys, as the graph
/// registered them last, accept.
pub proof fn quorum_members_have_graph_keys(
    slots: Seq<SlotView>,
    payload: Seq<u8>,
    g: GraphView,
    id: Seq<char>,
)
    requires
        directory_agrees(directory_of(g), g.nodes),
    ensures
        members_signed(slots, payload, directory_of(g)).contains(id) <==> exists|i: int|
            0 <= i < slots.len() && (#[trigger] slots[i]).key_id == id && sound_in(
                g,
                slots[i],
                SigningDomain::Quorum,
                payload,
            ),
{
    let all = slots.map_values(|s: SlotView| s.key_id);
    assert forall|i: int| 0 <= i < slots.len() implies sound(
        #[trigger] slots[i],
        SigningDomain::Quorum,
        payload,
        directory_of(g),
    ) == sound_in(g, slots[i], SigningDomain::Quorum, payload) by {
        sound_slots_have_graph_keys(g, slots[i], SigningDomain::Quorum, payload);
    }
    if exists|i: int|
        0 <= i < slots.len() && (#[trigger] slots[i]).key_id == id && sound_in(
            g,
            slots[i],
            SigningDomain::Quorum,
            payload,
        ) {
        let i = choose|i: int|
            0 <= i < slots.len() && (#[trigger] slots[i]).key_id == id && sound_in(
                g,
                slots[i],
                SigningDomain::Quorum,
                payload,
            );
        assert(all[i] == id);
        assert(slots[i].key_id == id);
        assert(member_signed(slots, payload, directory_of(g), id));
    }
}

} // verus!
