//! A worked example: a battery pack whose static segment is open and whose
//! dynamic segment is sealed.

use vstd::prelude::*;
use vstd::utf8::{
    decode_utf8, encode_utf8_decode_utf8, encode_utf8_valid_utf8, valid_utf8,
};

use crate::bytes::utf8;
use crate::digest::sha256_of;
use crate::dossier::{attestation_errors, bound, policy_errors, proof_errors, Dossier};
use crate::exchange::{S13Outcome, S13Request, S13Response};
use crate::frozen::{
    has_channel, FrozenInput, FrozenView, LensMetadata, ProjectionDescriptor, TemporalAxis,
    TransformStep,
};
use crate::graph::{
    directory_agrees, directory_of, first_value, insert_position, is_plain, lemma_insert_position,
    nodes_stand_under_ids,
    plain_texts_are_node_ids, registered_in, DelegationNode, GraphView, KindView, NodeId, NodeKind,
    NodeView, RegisteredKey, TrustGraph,
};
use crate::grid::{SignedPolicy, SignedSpine};
use crate::keyring::{
    ed25519_public_key, ed25519_signature, key_id_of, seeded_secret, KeyPair, KeyView,
};
use crate::maps::TextMap;
use crate::revoke::{quorum_bytes, signed_quorums_are_quorate, QuorumView};
use crate::s13::{
    asked, replayed, DecisionView, S13Journal, S13JournalEntry, S13Side, SignedS13Request,
    SignedS13Response,
};
use crate::segments::{spine_root, PolicyObject, RevealClass, Segment, Spine};
use crate::sets::texts;
use crate::scope::last_value;
use crate::sign::{framed, member_slots, SigningDomain, SlotView, Suite};
use crate::signer::{all_issued, issued, registered};
use crate::sovereign::{AttestationStatement, ClaimClass, SovereignAttestation};
use crate::text::{chars_of, same_text, string_of, text_of};
use crate::{first_error, ErrorView};

verus! {

/// The state of the static segment.
pub const STATIC_STATE: &'static str = "cell_model=H-2231,capacity_Ah=52,chemistry=LFP";

/// The bytes of the first input of a channel.
pub open spec fn input_of(inputs: Seq<FrozenInput>, name: Seq<char>) -> Option<Seq<u8>>
    decreases inputs.len(),
{
    if inputs.len() == 0 {
        None
    } else if inputs[0].name@ == name {
        Some(inputs[0].bytes@)
    } else {
        input_of(inputs.skip(1), name)
    }
}

/// Where the comma-separated field that starts at a position ends.
pub open spec fn field_end(s: Seq<char>, from: int) -> int
    decreases s.len() - from,
{
    if 0 <= from < s.len() && s[from] != ',' {
        field_end(s, from + 1)
    } else {
        from
    }
}

/// The first comma-separated field from a position on that starts with a
/// prefix.
pub open spec fn field_with(s: Seq<char>, from: int, prefix: Seq<char>) -> Option<Seq<char>>
    decreases s.len() - from,
    when 0 <= from <= s.len()
    via field_with_decreases
{
    let end = field_end(s, from);
    if prefix.is_prefix_of(s.subrange(from, end)) {
        Some(s.subrange(from, end))
    } else if end < s.len() {
        field_with(s, end + 1, prefix)
    } else {
        None
    }
}

#[via_fn]
proof fn field_with_decreases(s: Seq<char>, from: int, prefix: Seq<char>) {
    lemma_field_end(s, from);
}

proof fn lemma_field_end(s: Seq<char>, from: int)
    requires
        0 <= from <= s.len(),
    ensures
        from <= field_end(s, from) <= s.len(),
        forall|k: int| from <= k < field_end(s, from) ==> s[k] != ',',
        field_end(s, from) < s.len() ==> s[field_end(s, from)] == ',',
    decreases s.len() - from,
{
    if from < s.len() && s[from] != ',' {
        lemma_field_end(s, from + 1);
    }
}

/// What the battery lens renders: the cell model out of the static input, and
/// that the pack conforms. `None` when the static input names no cell model.
pub open spec fn battery_text(inputs: Seq<FrozenInput>) -> Option<Seq<char>> {
    match input_of(inputs, "static"@) {
        None => None,
        Some(bytes) => if !valid_utf8(bytes) {
            None
        } else {
            match field_with(decode_utf8(bytes), 0, "cell_model="@) {
                None => None,
                Some(f) => Some("battery-view: "@ + f + ", conformity=pass"@),
            }
        },
    }
}

fn starts(s: &Vec<char>, from: usize, to: usize, prefix: &Vec<char>) -> (r: bool)
    requires
        from <= to <= s@.len(),
    ensures
        r == prefix@.is_prefix_of(s@.subrange(from as int, to as int)),
{
    if to - from < prefix.len() {
        return false;
    }
    let ghost f = s@.subrange(from as int, to as int);
    let mut i: usize = 0;
    while i < prefix.len()
        invariant
            i <= prefix.len(),
            prefix.len() <= to - from,
            from <= to <= s@.len(),
            f == s@.subrange(from as int, to as int),
            forall|k: int| 0 <= k < i ==> prefix@[k] == f[k],
        decreases prefix.len() - i,
    {
        if s[from + i] != prefix[i] {
            assert(f[i as int] != prefix@[i as int]);
            return false;
        }
        i += 1;
    }
    assert(prefix@ =~= f.take(prefix@.len() as int));
    true
}

fn find_field(s: &Vec<char>, prefix: &Vec<char>) -> (r: Option<String>)
    ensures
        r is Some == field_with(s@, 0, prefix@) is Some,
        r matches Some(f) ==> Some(f@) == field_with(s@, 0, prefix@),
{
    let mut from: usize = 0;
    loop
        invariant
            from <= s@.len(),
            field_with(s@, 0, prefix@) == field_with(s@, from as int, prefix@),
        decreases s@.len() - from,
    {
        let mut end: usize = from;
        while end < s.len() && s[end] != ','
            invariant
                from <= end <= s@.len(),
                field_end(s@, from as int) == field_end(s@, end as int),
            decreases s@.len() - end,
        {
            end += 1;
        }
        assert(field_end(s@, from as int) == end);
        if starts(s, from, end, prefix) {
            let f = string_of(vstd::slice::slice_subrange(s.as_slice(), from, end));
            return Some(f);
        }
        if end == s.len() {
            return None;
        }
        from = end + 1;
    }
}

/// Renders the battery view from its inputs.
pub fn battery_lens(inputs: &[FrozenInput]) -> (r: Vec<u8>)
    requires
        battery_text(inputs@) is Some,
    ensures
        r@ == utf8(battery_text(inputs@)->0),
{
    let ghost all = inputs@;
    let mut i: usize = 0;
    assert(all.skip(0) =~= all);
    while i < inputs.len() && !same_text(inputs[i].name.as_str(), "static")
        invariant
            i <= inputs.len(),
            all == inputs@,
            input_of(all, "static"@) == input_of(all.skip(i as int), "static"@),
            battery_text(all) is Some,
        decreases inputs.len() - i,
    {
        assert(all.skip(i as int)[0] == all[i as int]);
        assert(all.skip(i as int).skip(1) =~= all.skip(i + 1));
        i += 1;
    }
    proof {
        if i < inputs.len() {
            assert(all.skip(i as int)[0] == all[i as int]);
        }
    }
    let text = text_of(inputs[i].bytes.as_slice()).unwrap();
    let chars = chars_of(text.as_str());
    let prefix = chars_of("cell_model=");
    let model = find_field(&chars, &prefix).unwrap();
    let line = crate::text::cat3("battery-view: ", model.as_str(), ", conformity=pass");
    crate::bytes::copied(line.as_str().as_bytes())
}

/// The kind of projection that the battery view is.
pub fn battery_frozen() -> (r: ProjectionDescriptor)
    ensures
        r.shape@ == "passport/public/profile/rendered"@,
        r.temporal == TemporalAxis::PointInTime,
{
    ProjectionDescriptor {
        shape: "passport/public/profile/rendered".to_owned(),
        temporal: TemporalAxis::PointInTime,
    }
}

/// The kind of projection that a served view is: it follows the state.
pub fn served_view() -> (r: ProjectionDescriptor)
    ensures
        r.shape@ == "passport/public/profile/rendered"@,
        r.temporal == TemporalAxis::Continuous,
{
    ProjectionDescriptor {
        shape: "passport/public/profile/rendered".to_owned(),
        temporal: TemporalAxis::Continuous,
    }
}

/// The Ed25519 public key of seed material.
pub open spec fn seed_key(seed: Seq<char>) -> KeyView {
    KeyView { suite: Suite::Ed25519, bytes: ed25519_public_key(seeded_secret(utf8(seed))) }
}

/// The slot that the Ed25519 pair of seed material makes over a payload in a
/// domain.
pub open spec fn seed_slot(seed: Seq<char>, domain: SigningDomain, payload: Seq<u8>) -> SlotView {
    SlotView {
        suite: Suite::Ed25519,
        key_id: key_id_of(seed_key(seed)),
        signature: Some(ed25519_signature(seeded_secret(utf8(seed)), framed(domain, payload))),
    }
}

/// Whether a pair is the Ed25519 pair of seed material.
pub open spec fn seeded_by(key: KeyPair, seed: Seq<char>) -> bool {
    &&& key.spec_suite() == Suite::Ed25519
    &&& key.spec_secret() == seeded_secret(utf8(seed))
    &&& key.spec_public() == seed_key(seed)
}

/// The node of a participant.
pub open spec fn cast_node(id: Seq<char>, seed: Seq<char>) -> NodeView {
    NodeView {
        id,
        kind: KindView::Delegated,
        keys: seq![(key_id_of(seed_key(seed)), seed_key(seed))],
        party: None,
    }
}

/// The ids of the keys of all that take part.
pub open spec fn cast_key_ids() -> Seq<Seq<char>> {
    seq![
        key_id_of(seed_key("frozen/cn-samr"@)),
        key_id_of(seed_key("frozen/weilian"@)),
        key_id_of(seed_key("frozen/de-zoll"@)),
        key_id_of(seed_key("frozen/cn-attest"@)),
        key_id_of(seed_key("frozen/quorum-a"@)),
        key_id_of(seed_key("frozen/quorum-b"@)),
    ]
}

/// Whether a graph holds the nodes of all that take part, and nothing else.
pub open spec fn is_battery_graph(graph: GraphView) -> bool {
    &&& graph.nodes.len() == 6
    &&& graph.edges.len() == 0
    &&& graph.node("cn-samr"@) == Some(cast_node("cn-samr"@, "frozen/cn-samr"@))
    &&& graph.node("weilian-shenzhen"@) == Some(
        cast_node("weilian-shenzhen"@, "frozen/weilian"@),
    )
    &&& graph.node("de-zoll"@) == Some(cast_node("de-zoll"@, "frozen/de-zoll"@))
    &&& graph.node("cn-attestation-service"@) == Some(
        cast_node("cn-attestation-service"@, "frozen/cn-attest"@),
    )
    &&& graph.node("cn-quorum-a"@) == Some(cast_node("cn-quorum-a"@, "frozen/quorum-a"@))
    &&& graph.node("cn-quorum-b"@) == Some(cast_node("cn-quorum-b"@, "frozen/quorum-b"@))
}

fn seeded(seed: &str) -> (r: KeyPair)
    ensures
        seeded_by(r, seed@),
{
    KeyPair::seeded(Suite::Ed25519, seed.as_bytes()).unwrap()
}

/// Whether a text can serve as a node id as it stands.
spec fn plain(id: Seq<char>) -> bool {
    0 < id.len() <= 128 && forall|i: int| 0 <= i < id.len() ==> is_plain(#[trigger] id[i])
}

proof fn lemma_registered_in(nodes: Seq<NodeView>, p: int, node: NodeView, id: Seq<char>)
    requires
        0 <= p <= nodes.len(),
        node.keys.len() == 1,
    ensures
        node.keys[0].0 != id ==> registered_in(nodes.insert(p, node), id) == registered_in(
            nodes,
            id,
        ),
        node.keys[0].0 == id && registered_in(nodes, id) is None ==> registered_in(
            nodes.insert(p, node),
            id,
        ) == Some(node.keys[0].1),
    decreases nodes.len(),
{
    reveal_with_fuel(last_value, 2);
    let more = nodes.insert(p, node);
    assert(node.keys.drop_last() =~= Seq::<(Seq<char>, KeyView)>::empty());
    if p == nodes.len() {
        assert(more.drop_last() =~= nodes);
        assert(more.last() == node);
    } else {
        assert(more.drop_last() =~= nodes.drop_last().insert(p, node));
        assert(more.last() == nodes.last());
        lemma_registered_in(nodes.drop_last(), p, node, id);
    }
}

fn enroll(graph: &mut TrustGraph, id: &str, key: &KeyPair, Ghost(seed): Ghost<Seq<char>>)
    requires
        plain(id@),
        old(graph)@.node(id@) is None,
        seeded_by(*key, seed),
    ensures
        final(graph)@.nodes.len() == old(graph)@.nodes.len() + 1,
        final(graph)@.edges == old(graph)@.edges,
        final(graph)@.node(id@) == Some(cast_node(id@, seed)),
        forall|other: Seq<char>|
            other != id@ ==> #[trigger] final(graph)@.node(other) == old(graph)@.node(other),
        registered_in(old(graph)@.nodes, key_id_of(seed_key(seed))) is None ==> registered_in(
            final(graph)@.nodes,
            key_id_of(seed_key(seed)),
        ) == Some(seed_key(seed)),
        forall|k: Seq<char>|
            k != key_id_of(seed_key(seed)) ==> #[trigger] registered_in(final(graph)@.nodes, k)
                == registered_in(old(graph)@.nodes, k),
{
    proof {
        plain_texts_are_node_ids(id@);
        reveal_with_fuel(first_value, 2);
    }
    let mut node = DelegationNode::new(NodeId::new(id).unwrap(), NodeKind::Delegated);
    let entry = RegisteredKey::of(key);
    node.register(entry);
    let ghost n = node@;
    graph.add_node(node);
    proof {
        assert(n.keys =~= cast_node(id@, seed).keys);
        assert(n == cast_node(id@, seed));
        let old_nodes = old(graph)@.nodes;
        let p = insert_position(old(graph)@.ids, id@);
        lemma_insert_position(old(graph)@.ids, id@);
        nodes_stand_under_ids(*old(graph));
        lemma_registered_in(old_nodes, p, n, key_id_of(seed_key(seed)));
        assert forall|k: Seq<char>| k != key_id_of(seed_key(seed)) implies #[trigger] registered_in(
            graph@.nodes,
            k,
        ) == registered_in(old_nodes, k) by {
            lemma_registered_in(old_nodes, p, n, k);
        }
    }
}

proof fn lemma_cast_registered(graph: GraphView, id: Seq<char>, seed: Seq<char>, key: KeyPair)
    requires
        plain(id),
        graph.node(id) == Some(cast_node(id, seed)),
        seeded_by(key, seed),
    ensures
        registered(graph, id, key),
{
    plain_texts_are_node_ids(id);
    reveal_with_fuel(first_value, 2);
}

/// What a seeded pair issued is the slot of its seed.
proof fn lemma_seed_slot(
    key: KeyPair,
    seed: Seq<char>,
    domain: SigningDomain,
    payload: Seq<u8>,
    slot: SlotView,
)
    requires
        seeded_by(key, seed),
        issued(key, domain, payload, slot),
    ensures
        slot == seed_slot(seed, domain, payload),
{
}

fn one(a: &str) -> (r: Vec<String>)
    ensures
        texts(r@) == seq![a@],
{
    let r = vec![a.to_owned()];
    assert(texts(r@) =~= seq![a@]);
    r
}

fn two(a: &str, b: &str) -> (r: Vec<String>)
    ensures
        texts(r@) == seq![a@, b@],
{
    let r = vec![a.to_owned(), b.to_owned()];
    assert(texts(r@) =~= seq![a@, b@]);
    r
}

fn three(a: &str, b: &str, c: &str) -> (r: Vec<String>)
    ensures
        r@.len() == 3,
        texts(r@) == seq![a@, b@, c@],
{
    let r = vec![a.to_owned(), b.to_owned(), c.to_owned()];
    assert(texts(r@) =~= seq![a@, b@, c@]);
    r
}

/// Whether a policy is that of the open segment.
pub open spec fn is_open_policy(p: PolicyObject) -> bool {
    &&& p.policy_id@ == "eu-static-open"@
    &&& p.version == 1
    &&& p.authority@ == "cn-samr"@
    &&& texts(p.readers@) == seq!["any-verifier"@]
    &&& texts(p.verifiers@) == seq!["any-verifier"@]
    &&& texts(p.writers@) == seq!["weilian-shenzhen"@]
    &&& p.reveal == RevealClass::Open
    &&& texts(p.suites@) == seq!["ecdsa-p256"@]
    &&& p.valid_from@ == "2027-01-01T00:00:00Z"@
    &&& p.valid_to is None
    &&& p.superseded_by is None
}

/// Whether a policy is that of the sealed segment.
pub open spec fn is_sealed_policy(p: PolicyObject) -> bool {
    &&& p.policy_id@ == "cn-dynamic-bms"@
    &&& p.version == 1
    &&& p.authority@ == "cn-samr"@
    &&& texts(p.readers@) == seq!["cn-customs"@]
    &&& texts(p.verifiers@) == seq!["cn-customs"@, "de-zoll"@]
    &&& texts(p.writers@) == seq!["weilian-shenzhen"@]
    &&& p.reveal == RevealClass::OriginSealed
    &&& texts(p.suites@) == seq!["sm2"@]
    &&& p.valid_from@ == "2027-01-01T00:00:00Z"@
    &&& p.valid_to is None
    &&& p.superseded_by is None
}

fn open_policy() -> (r: PolicyObject)
    ensures
        is_open_policy(r),
{
    PolicyObject {
        policy_id: "eu-static-open".to_owned(),
        version: 1,
        authority: "cn-samr".to_owned(),
        readers: one("any-verifier"),
        verifiers: one("any-verifier"),
        writers: one("weilian-shenzhen"),
        reveal: RevealClass::Open,
        suites: one("ecdsa-p256"),
        valid_from: "2027-01-01T00:00:00Z".to_owned(),
        valid_to: None,
        superseded_by: None,
    }
}

fn sealed_policy() -> (r: PolicyObject)
    ensures
        is_sealed_policy(r),
{
    PolicyObject {
        policy_id: "cn-dynamic-bms".to_owned(),
        version: 1,
        authority: "cn-samr".to_owned(),
        readers: one("cn-customs"),
        verifiers: two("cn-customs", "de-zoll"),
        writers: one("weilian-shenzhen"),
        reveal: RevealClass::OriginSealed,
        suites: one("sm2"),
        valid_from: "2027-01-01T00:00:00Z".to_owned(),
        valid_to: None,
        superseded_by: None,
    }
}

/// Whether a question is that of the example.
pub open spec fn is_battery_request(q: S13Request) -> bool {
    &&& q.verifier@ == "de-zoll"@
    &&& q.subject@ == "urn:unidpp:passport:pack-0001"@
    &&& q.profile@ == "urn:unidpp:profile:eu-battery"@
    &&& q.segment@ == "cn-dynamic"@
    &&& q.at@ == "2030-06-01T08:00:00Z"@
}

fn battery_request() -> (r: S13Request)
    ensures
        is_battery_request(r),
{
    S13Request {
        verifier: "de-zoll".to_owned(),
        subject: "urn:unidpp:passport:pack-0001".to_owned(),
        profile: "urn:unidpp:profile:eu-battery".to_owned(),
        segment: "cn-dynamic".to_owned(),
        at: "2030-06-01T08:00:00Z".to_owned(),
    }
}

proof fn lemma_ids()
    ensures
        plain("cn-samr"@),
        plain("weilian-shenzhen"@),
        plain("de-zoll"@),
        plain("cn-attestation-service"@),
        plain("cn-quorum-a"@),
        plain("cn-quorum-b"@),
        plain("cn-attestation-quorum"@),
        "cn-samr"@ != "de-zoll"@,
        "cn-quorum-a"@ != "cn-quorum-b"@,
        "cn-samr"@.len() == 7,
        "weilian-shenzhen"@.len() == 16,
        "de-zoll"@.len() == 7,
        "cn-attestation-service"@.len() == 22,
        "cn-quorum-a"@.len() == 11,
        "cn-quorum-b"@.len() == 11,
{
    reveal_strlit("cn-samr");
    reveal_strlit("weilian-shenzhen");
    reveal_strlit("de-zoll");
    reveal_strlit("cn-attestation-service");
    reveal_strlit("cn-quorum-a");
    reveal_strlit("cn-quorum-b");
    reveal_strlit("cn-attestation-quorum");
    assert("cn-samr"@[0] != "de-zoll"@[0]);
    assert("cn-quorum-a"@[10] != "cn-quorum-b"@[10]);
}

proof fn lemma_static_state()
    ensures
        field_with(STATIC_STATE@, 0, "cell_model="@) == Some("cell_model=H-2231"@),
        "battery-view: "@ + "cell_model=H-2231"@ + ", conformity=pass"@
            == "battery-view: cell_model=H-2231, conformity=pass"@,
{
    reveal_strlit("cell_model=H-2231,capacity_Ah=52,chemistry=LFP");
    reveal_strlit("cell_model=H-2231");
    reveal_strlit("cell_model=");
    reveal_strlit("battery-view: ");
    reveal_strlit(", conformity=pass");
    reveal_strlit("battery-view: cell_model=H-2231, conformity=pass");
    let s = STATIC_STATE@;
    lemma_field_end(s, 0);
    let end = field_end(s, 0);
    assert(s[17] == ',');
    assert(end == 17);
    assert(s.subrange(0, 17) =~= "cell_model=H-2231"@);
    assert("cell_model="@ =~= s.subrange(0, 17).take(11));
    assert("battery-view: "@ + "cell_model=H-2231"@ + ", conformity=pass"@
        =~= "battery-view: cell_model=H-2231, conformity=pass"@);
}

fn battery_inputs() -> (r: Vec<FrozenInput>)
    ensures
        r@.len() == 1,
        r@[0].name@ == "static"@,
        r@[0].segment@ == "eu-static"@,
        r@[0].bytes@ == utf8(STATIC_STATE@),
        battery_text(r@) == Some("battery-view: cell_model=H-2231, conformity=pass"@),
{
    let input = FrozenInput {
        name: "static".to_owned(),
        segment: "eu-static".to_owned(),
        bytes: crate::bytes::copied(STATIC_STATE.as_bytes()),
    };
    let r = vec![input];
    proof {
        lemma_static_state();
        encode_utf8_valid_utf8(STATIC_STATE@);
        encode_utf8_decode_utf8(STATIC_STATE@);
    }
    r
}

/// Whether a spine commits to the two segments of the example.
pub open spec fn is_battery_spine(s: Spine) -> bool {
    &&& s.version == 1
    &&& s.commitments.keys().to_set() == set!["eu-static"@, "cn-dynamic"@]
    &&& s.commitments.at("eu-static"@) matches Some(c) && c@ == sha256_of(utf8(STATIC_STATE@))
    &&& s.commitments.at("cn-dynamic"@) matches Some(c) && c@ == sha256_of(
        utf8("cycle_count=412"@),
    )
    &&& s.root@ == spine_root(s.commitments)
}

fn battery_spine() -> (r: Spine)
    ensures
        is_battery_spine(r),
{
    let mut commitments: TextMap<[u8; 32]> = TextMap::new();
    commitments.insert("eu-static", Segment::commit_state(STATIC_STATE.as_bytes()));
    commitments.insert("cn-dynamic", Segment::commit_state("cycle_count=412".as_bytes()));
    proof {
        reveal_strlit("eu-static");
        reveal_strlit("cn-dynamic");
        assert("eu-static"@.len() != "cn-dynamic"@.len());
        assert(commitments.keys().to_set() =~= set!["eu-static"@, "cn-dynamic"@]);
    }
    Spine::over(1, commitments)
}

/// Whether an attestation is that of the example: it vouches for the sealed
/// state, signed by the service and by the two members of its quorum.
pub open spec fn is_battery_attestation(a: SovereignAttestation) -> bool {
    &&& a.statement.segment@ == "cn-dynamic"@
    &&& a.statement.state_commitment@ == sha256_of(utf8("cycle_count=412"@))
    &&& a.statement.claim == ClaimClass::Conformity
    &&& a.statement.value@ == "pass"@
    &&& a.statement.as_of@ == "2030-06-01T08:00:00Z"@
    &&& a.statement.governing_policy@ == "cn-dynamic-bms"@
    &&& a.statement.governing_policy_version == 1
    &&& a.statement.subject@ == "urn:unidpp:passport:pack-0001"@
    &&& a.service@ == "cn-attestation-service"@
    &&& a.signature@ == seed_slot(
        "frozen/cn-attest"@,
        SigningDomain::SovereignAttestation,
        a.statement.bytes(),
    )
    &&& a.quorum matches Some(q) && q@ == (QuorumView {
        quorum: "cn-attestation-quorum"@,
        threshold: 2,
        signatures: seq![
            seed_slot(
                "frozen/quorum-a"@,
                SigningDomain::Quorum,
                quorum_bytes(a.statement.bytes(), "cn-attestation-quorum"@, 2),
            ),
            seed_slot(
                "frozen/quorum-b"@,
                SigningDomain::Quorum,
                quorum_bytes(a.statement.bytes(), "cn-attestation-quorum"@, 2),
            ),
        ],
    })
}

fn battery_attestation(
    state_commitment: [u8; 32],
    service: &KeyPair,
    a: &KeyPair,
    b: &KeyPair,
) -> (r: SovereignAttestation)
    requires
        state_commitment@ == sha256_of(utf8("cycle_count=412"@)),
        seeded_by(*service, "frozen/cn-attest"@),
        seeded_by(*a, "frozen/quorum-a"@),
        seeded_by(*b, "frozen/quorum-b"@),
    ensures
        is_battery_attestation(r),
        issued(
            *service,
            SigningDomain::SovereignAttestation,
            r.statement.bytes(),
            r.signature@,
        ),
        all_issued(
            seq![a, b],
            SigningDomain::Quorum,
            quorum_bytes(r.statement.bytes(), "cn-attestation-quorum"@, 2),
            r.quorum->0@.signatures,
        ),
{
    let statement = AttestationStatement {
        segment: "cn-dynamic".to_owned(),
        state_commitment,
        claim: ClaimClass::Conformity,
        value: "pass".to_owned(),
        as_of: "2030-06-01T08:00:00Z".to_owned(),
        governing_policy: "cn-dynamic-bms".to_owned(),
        governing_policy_version: 1,
        subject: "urn:unidpp:passport:pack-0001".to_owned(),
    };
    proof {
        lemma_ids();
        plain_texts_are_node_ids("cn-attestation-quorum"@);
        reveal_with_fuel(member_slots, 3);
    }
    let quorum_id = NodeId::new("cn-attestation-quorum").unwrap();
    let members: [&KeyPair; 2] = [a, b];
    assert(members@ =~= seq![a, b]);
    let ghost payload = quorum_bytes(statement.bytes(), quorum_id@, 2);
    assert(seq![a, b].drop_last() =~= seq![a]);
    assert(seq![a].drop_last() =~= Seq::<&KeyPair>::empty());
    assert(member_slots(seq![a, b], SigningDomain::Quorum, payload) is Some);
    let r = SovereignAttestation::issue(
        statement,
        "cn-attestation-service",
        service,
        Some((&quorum_id, 2, members.as_slice())),
    ).unwrap();
    proof {
        let slots = r.quorum->0@.signatures;
        lemma_seed_slot(*a, "frozen/quorum-a"@, SigningDomain::Quorum, payload, slots[0]);
        lemma_seed_slot(*b, "frozen/quorum-b"@, SigningDomain::Quorum, payload, slots[1]);
        assert(slots =~= seq![
            seed_slot("frozen/quorum-a"@, SigningDomain::Quorum, payload),
            seed_slot("frozen/quorum-b"@, SigningDomain::Quorum, payload),
        ]);
    }
    r
}

fn battery_journal(policy: &PolicyObject, verifier: &KeyPair, custodian: &KeyPair) -> (r:
    S13Journal)
    requires
        seeded_by(*verifier, "frozen/de-zoll"@),
        seeded_by(*custodian, "frozen/weilian"@),
        is_sealed_policy(*policy),
    ensures
        is_battery_journal(r),
        battery_exchange(r, *verifier, *custodian),
{
    let request = SignedS13Request::issue(battery_request(), "de-zoll", verifier).unwrap();
    let response = S13Response::evaluate(&request.request, policy, "weilian-shenzhen");
    assert(seq!["cn-customs"@, "de-zoll"@][1] == "de-zoll"@);
    let answer = SignedS13Response::issue(response, custodian).unwrap();
    let mut journal = S13Journal::new(S13Side::Custodian);
    journal.append(S13JournalEntry::Request(request));
    journal.append(S13JournalEntry::Response(answer));
    journal
}

/// The decision of the example's journal.
pub open spec fn battery_decision(journal: S13Journal) -> DecisionView {
    DecisionView {
        request_digest: match journal.entries@[0] {
            S13JournalEntry::Request(q) => q.request.spec_digest(),
            _ => Seq::empty(),
        },
        outcome: "attestation-offer"@,
        governing_policy: "cn-dynamic-bms"@,
        governing_policy_version: 1,
    }
}

/// Whether a journal holds the example's question and its answer.
pub open spec fn is_battery_journal(journal: S13Journal) -> bool {
    &&& journal.side == S13Side::Custodian
    &&& journal.entries@.len() == 2
    &&& journal.entries@[0] matches S13JournalEntry::Request(q)
    &&& is_battery_request(q.request)
    &&& q.requester@ == "de-zoll"@
    &&& q.signature@ == seed_slot(
        "frozen/de-zoll"@,
        SigningDomain::S13Message,
        q.request.bytes(),
    )
    &&& journal.entries@[1] matches S13JournalEntry::Response(a)
    &&& a.response.request_digest@ == q.request.spec_digest()
    &&& a.response.custodian@ == "weilian-shenzhen"@
    &&& a.response.outcome == S13Outcome::AttestationOffer
    &&& a.response.governing_policy@ == "cn-dynamic-bms"@
    &&& a.response.governing_policy_version == 1
    &&& a.signature@ == seed_slot(
        "frozen/weilian"@,
        SigningDomain::S13Message,
        a.response.bytes(),
    )
}

/// Whether a dossier is that of the example.
pub open spec fn is_battery_dossier(d: Dossier) -> bool {
    &&& d.subject@ == "urn:unidpp:passport:pack-0001"@
    &&& d.policies@.len() == 2
    &&& is_open_policy(d.policies@[0].policy)
    &&& d.policies@[0].signature@ == seed_slot(
        "frozen/cn-samr"@,
        SigningDomain::SegmentPolicy,
        d.policies@[0].policy.bytes(),
    )
    &&& is_sealed_policy(d.policies@[1].policy)
    &&& d.policies@[1].signature@ == seed_slot(
        "frozen/cn-samr"@,
        SigningDomain::SegmentPolicy,
        d.policies@[1].policy.bytes(),
    )
    &&& is_battery_spine(d.spine.spine)
    &&& d.spine.custodian@ == "weilian-shenzhen"@
    &&& d.spine.signature@ == seed_slot(
        "frozen/weilian"@,
        SigningDomain::SpineRoot,
        d.spine.spine.spec_digest(),
    )
    &&& d.proofs@.len() == 1
    &&& d.proofs@[0].segment_id@ == "eu-static"@
    &&& d.proofs@[0].holds(d.spine.spine.root@)
    &&& d.attestations@.len() == 1
    &&& is_battery_attestation(d.attestations@[0])
    &&& is_battery_journal(d.journal)
    &&& d.receipt is None
}

/// Whether a view is that of the example.
pub open spec fn is_battery_view(v: FrozenView) -> bool {
    &&& v.subject@ == "urn:unidpp:passport:pack-0001"@
    &&& v.payload@ == utf8("battery-view: cell_model=H-2231, conformity=pass"@)
    &&& v.descriptor.shape@ == "passport/public/profile/rendered"@
    &&& v.descriptor.temporal == TemporalAxis::PointInTime
    &&& v.lens.profile@ == "urn:unidpp:profile:eu-battery"@
    &&& v.lens.transforms@.len() == 1
    &&& v.lens.transforms@[0].reference@ == "urn:unidpp:transform:battery-view"@
    &&& v.lens.transforms@[0].version == 1
    &&& v.lens.input_segments@.len() == 1
    &&& v.lens.input_segments@[0].0@ == "static"@
    &&& v.lens.input_segments@[0].1@ == "eu-static"@
    &&& v.inputs@.len() == 1
    &&& v.inputs@[0].name@ == "static"@
    &&& v.inputs@[0].segment@ == "eu-static"@
    &&& v.inputs@[0].bytes@ == utf8(STATIC_STATE@)
    &&& battery_text(v.inputs@) == Some("battery-view: cell_model=H-2231, conformity=pass"@)
    &&& is_battery_dossier(v.bundle)
    &&& texts(v.instructions@) == seq![
        "verify the bundle under your own anchors"@,
        "check each input against its spine commitment"@,
        "re-execute the lens over the inputs"@,
    ]
    &&& v.notarized_at@ == "2030-06-01T08:00:00Z"@
}

/// Whether the parts of a dossier are signed as those of the example.
#[verifier::opaque]
spec fn battery_parts(
    bundle: Dossier,
    authority: KeyPair,
    custodian: KeyPair,
    verifier: KeyPair,
    service: KeyPair,
) -> bool {
    &&& bundle.policies@.len() == 2
    &&& bundle.policies@[0].policy.authority@ == "cn-samr"@
    &&& bundle.policies@[1].policy.authority@ == "cn-samr"@
    &&& bundle.policies@[1].policy.policy_id@ == "cn-dynamic-bms"@
    &&& bundle.policies@[1].policy.version == 1
    &&& issued(
        authority,
        SigningDomain::SegmentPolicy,
        bundle.policies@[0].policy.bytes(),
        bundle.policies@[0].signature@,
    )
    &&& issued(
        authority,
        SigningDomain::SegmentPolicy,
        bundle.policies@[1].policy.bytes(),
        bundle.policies@[1].signature@,
    )
    &&& bundle.spine.custodian@ == "weilian-shenzhen"@
    &&& issued(
        custodian,
        SigningDomain::SpineRoot,
        bundle.spine.spine.spec_digest(),
        bundle.spine.signature@,
    )
    &&& bundle.proofs@.len() == 1
    &&& bundle.proofs@[0].holds(bundle.spine.spine.root@)
    &&& bundle.attestations@.len() == 1
    &&& bundle.attestations@[0].service@ == "cn-attestation-service"@
    &&& bundle.attestations@[0].statement.governing_policy@ == "cn-dynamic-bms"@
    &&& bundle.attestations@[0].statement.governing_policy_version == 1
    &&& issued(
        service,
        SigningDomain::SovereignAttestation,
        bundle.attestations@[0].statement.bytes(),
        bundle.attestations@[0].signature@,
    )
    &&& bundle.receipt is None
    &&& battery_exchange(bundle.journal, verifier, custodian)
}

/// Whether a journal holds the example's question and its answer.
spec fn battery_exchange(journal: S13Journal, verifier: KeyPair, custodian: KeyPair) -> bool {
    &&& journal.side == S13Side::Custodian
    &&& journal.entries@.len() == 2
    &&& journal.entries@[0] matches S13JournalEntry::Request(q)
    &&& q.requester@ == "de-zoll"@
    &&& issued(verifier, SigningDomain::S13Message, q.request.bytes(), q.signature@)
    &&& journal.entries@[1] matches S13JournalEntry::Response(a)
    &&& a.response.request_digest@ == q.request.spec_digest()
    &&& a.response.custodian@ == "weilian-shenzhen"@
    &&& a.response.outcome == S13Outcome::AttestationOffer
    &&& a.response.governing_policy@ == "cn-dynamic-bms"@
    &&& a.response.governing_policy_version == 1
    &&& issued(custodian, SigningDomain::S13Message, a.response.bytes(), a.signature@)
}

proof fn lemma_exchange(
    journal: S13Journal,
    graph: GraphView,
    verifier: KeyPair,
    custodian: KeyPair,
)
    requires
        battery_exchange(journal, verifier, custodian),
        registered(graph, "de-zoll"@, verifier),
        registered(graph, "weilian-shenzhen"@, custodian),
    ensures
        replayed(graph, journal.entries@, journal.entries@) == Ok::<
            Seq<DecisionView>,
            ErrorView,
        >(seq![battery_decision(journal)]),
{
    let all = journal.entries@;
    let q = all[0]->Request_0;
    let a = all[1]->Response_0;
    let first = all.drop_last();
    assert(first[0] == all[0]);
    assert(first.drop_last() =~= Seq::<S13JournalEntry>::empty());
    assert(q.check(graph) is Ok);
    assert(a.check(graph) is Ok);
    assert(asked(first, a.response.request_digest@));
    assert(replayed(graph, all, first.drop_last()) == Ok::<Seq<DecisionView>, ErrorView>(
        Seq::empty(),
    ));
    assert(replayed(graph, all, first) == Ok::<Seq<DecisionView>, ErrorView>(Seq::empty()));
    assert(Seq::<DecisionView>::empty().push(battery_decision(journal)) =~= seq![
        battery_decision(journal),
    ]);
}

proof fn lemma_bundle(
    bundle: Dossier,
    graph: GraphView,
    authority: KeyPair,
    custodian: KeyPair,
    verifier: KeyPair,
    service: KeyPair,
)
    requires
        battery_parts(bundle, authority, custodian, verifier, service),
        registered(graph, "cn-samr"@, authority),
        registered(graph, "weilian-shenzhen"@, custodian),
        registered(graph, "de-zoll"@, verifier),
        registered(graph, "cn-attestation-service"@, service),
        bundle.attestations@[0].statement.claim == ClaimClass::Conformity,
        bundle.attestations@[0].quorum matches Some(q) && q@.quorate(
            bundle.attestations@[0].statement.bytes(),
            directory_of(graph),
        ),
    ensures
        bundle.check(graph) == Ok::<Seq<DecisionView>, ErrorView>(
            seq![battery_decision(bundle.journal)],
        ),
{
    reveal(battery_parts);
    reveal_with_fuel(first_error, 3);
    let ps = policy_errors(bundle.policies@, graph);
    assert(bundle.policies@[0].check(graph) is Ok);
    assert(bundle.policies@[1].check(graph) is Ok);
    assert(ps.drop_last().drop_last() =~= Seq::<Option<ErrorView>>::empty());
    assert(first_error(ps) is None);
    assert(bundle.spine.check(graph) is Ok);
    let fs = proof_errors(bundle.proofs@, bundle.spine.spine.root@);
    assert(fs.drop_last() =~= Seq::<Option<ErrorView>>::empty());
    assert(first_error(fs) is None);
    let a = bundle.attestations@[0];
    assert(a.check(graph) is Ok);
    assert(a.binds(bundle.policies@[1].policy));
    assert(bound(a, bundle.policies@));
    let errors = attestation_errors(bundle.attestations@, bundle.policies@, graph);
    assert(errors.drop_last() =~= Seq::<Option<ErrorView>>::empty());
    assert(first_error(errors) is None);
    lemma_exchange(bundle.journal, graph, verifier, custodian);
}

/// The quorum of the example is quorate wherever the ids of all keys differ.
proof fn lemma_quorum(
    bundle: Dossier,
    graph: GraphView,
    a: KeyPair,
    b: KeyPair,
)
    requires
        is_battery_dossier(bundle),
        all_issued(
            seq![&a, &b],
            SigningDomain::Quorum,
            quorum_bytes(
                bundle.attestations@[0].statement.bytes(),
                "cn-attestation-quorum"@,
                2,
            ),
            bundle.attestations@[0].quorum->0@.signatures,
        ),
        seeded_by(a, "frozen/quorum-a"@),
        seeded_by(b, "frozen/quorum-b"@),
        key_id_of(a.spec_public()) != key_id_of(b.spec_public()),
        directory_agrees(directory_of(graph), graph.nodes),
        registered_in(graph.nodes, key_id_of(a.spec_public())) == Some(a.spec_public()),
        registered_in(graph.nodes, key_id_of(b.spec_public())) == Some(b.spec_public()),
    ensures
        bundle.attestations@[0].quorum->0@.quorate(
            bundle.attestations@[0].statement.bytes(),
            directory_of(graph),
        ),
{
    let d = directory_of(graph);
    let members = seq![&a, &b];
    assert(d.lookup(key_id_of(a.spec_public())) == Some(a.spec_public()));
    assert(d.lookup(key_id_of(b.spec_public())) == Some(b.spec_public()));
    assert(members[0] == a && members[1] == b);
    signed_quorums_are_quorate(
        bundle.attestations@[0].quorum->0@,
        bundle.attestations@[0].statement.bytes(),
        members,
        d,
    );
}

proof fn lemma_inputs(view: FrozenView)
    requires
        view.inputs@.len() == 1,
        view.inputs@[0].name@ == "static"@,
        view.inputs@[0].segment@ == "eu-static"@,
        view.inputs@[0].bytes@ == utf8(STATIC_STATE@),
        view.bundle.spine.spine.commitments.at("eu-static"@) matches Some(c) && c@ == sha256_of(
            utf8(STATIC_STATE@),
        ),
        view.lens.input_segments@.len() == 1,
        view.lens.input_segments@[0].0@ == "static"@,
        view.lens.input_segments@[0].1@ == "eu-static"@,
    ensures
        first_error(view.input_errors()) is None,
{
    let errors = view.input_errors();
    assert(errors.drop_last() =~= Seq::<Option<ErrorView>>::empty());
    assert(has_channel(view.lens.input_segments@, "static"@, "eu-static"@));
    assert(view.input_error(view.inputs@[0]) is None);
    assert(first_error(errors.drop_last()) is None);
}

fn battery_graph(
    authority: &KeyPair,
    custodian: &KeyPair,
    verifier: &KeyPair,
    service: &KeyPair,
    quorum_a: &KeyPair,
    quorum_b: &KeyPair,
) -> (r: TrustGraph)
    requires
        seeded_by(*authority, "frozen/cn-samr"@),
        seeded_by(*custodian, "frozen/weilian"@),
        seeded_by(*verifier, "frozen/de-zoll"@),
        seeded_by(*service, "frozen/cn-attest"@),
        seeded_by(*quorum_a, "frozen/quorum-a"@),
        seeded_by(*quorum_b, "frozen/quorum-b"@),
    ensures
        is_battery_graph(r@),
        directory_agrees(directory_of(r@), r@.nodes),
        cast_key_ids().no_duplicates() ==> registered_in(
            r@.nodes,
            key_id_of(quorum_a.spec_public()),
        ) == Some(quorum_a.spec_public()) && registered_in(
            r@.nodes,
            key_id_of(quorum_b.spec_public()),
        ) == Some(quorum_b.spec_public()),
{
    proof {
        lemma_ids();
    }
    let mut graph = TrustGraph::new();
    enroll(&mut graph, "cn-samr", authority, Ghost("frozen/cn-samr"@));
    enroll(&mut graph, "weilian-shenzhen", custodian, Ghost("frozen/weilian"@));
    enroll(&mut graph, "de-zoll", verifier, Ghost("frozen/de-zoll"@));
    enroll(&mut graph, "cn-attestation-service", service, Ghost("frozen/cn-attest"@));
    enroll(&mut graph, "cn-quorum-a", quorum_a, Ghost("frozen/quorum-a"@));
    enroll(&mut graph, "cn-quorum-b", quorum_b, Ghost("frozen/quorum-b"@));
    let _ = graph.key_directory();
    proof {
        let ids = cast_key_ids();
        if ids.no_duplicates() {
            assert(ids[0] != ids[4] && ids[1] != ids[4] && ids[2] != ids[4] && ids[3] != ids[4]);
            assert(ids[0] != ids[5] && ids[1] != ids[5] && ids[2] != ids[5] && ids[3] != ids[5]);
            assert(ids[4] != ids[5]);
        }
    }
    graph
}

fn battery_bundle(
    authority: &KeyPair,
    custodian: &KeyPair,
    verifier: &KeyPair,
    service: &KeyPair,
    quorum_a: &KeyPair,
    quorum_b: &KeyPair,
) -> (r: Dossier)
    requires
        seeded_by(*authority, "frozen/cn-samr"@),
        seeded_by(*custodian, "frozen/weilian"@),
        seeded_by(*verifier, "frozen/de-zoll"@),
        seeded_by(*service, "frozen/cn-attest"@),
        seeded_by(*quorum_a, "frozen/quorum-a"@),
        seeded_by(*quorum_b, "frozen/quorum-b"@),
    ensures
        is_battery_dossier(r),
        battery_parts(r, *authority, *custodian, *verifier, *service),
        all_issued(
            seq![quorum_a, quorum_b],
            SigningDomain::Quorum,
            quorum_bytes(r.attestations@[0].statement.bytes(), "cn-attestation-quorum"@, 2),
            r.attestations@[0].quorum->0@.signatures,
        ),
{
    let open_policy = SignedPolicy::issue(open_policy(), authority).unwrap();
    let sealed_policy = SignedPolicy::issue(sealed_policy(), authority).unwrap();
    let spine = battery_spine();
    proof {
        assert(spine.commitments.keys().to_set().contains("eu-static"@));
    }
    let inclusion = spine.proof_for("eu-static").unwrap();
    let state_commitment = *spine.commitments.get("cn-dynamic").unwrap();
    let signed_spine = SignedSpine::issue(spine, "weilian-shenzhen", custodian).unwrap();
    let attestation = battery_attestation(state_commitment, service, quorum_a, quorum_b);
    let journal = battery_journal(&sealed_policy.policy, verifier, custodian);
    proof {
        reveal(battery_parts);
    }
    Dossier {
        subject: "urn:unidpp:passport:pack-0001".to_owned(),
        policies: vec![open_policy, sealed_policy],
        spine: signed_spine,
        proofs: vec![inclusion],
        attestations: vec![attestation],
        journal,
        receipt: None,
    }
}

fn battery_freeze(dossier: Dossier) -> (r: FrozenView)
    requires
        is_battery_dossier(dossier),
    ensures
        is_battery_view(r),
        r.bundle == dossier,
        first_error(r.input_errors()) is None,
{
    let inputs = battery_inputs();
    let payload = battery_lens(inputs.as_slice());
    let lens = LensMetadata {
        profile: "urn:unidpp:profile:eu-battery".to_owned(),
        transforms: vec![
            TransformStep {
                reference: "urn:unidpp:transform:battery-view".to_owned(),
                version: 1,
            },
        ],
        input_segments: vec![("static".to_owned(), "eu-static".to_owned())],
    };
    let view = FrozenView::freeze(
        "urn:unidpp:passport:pack-0001",
        payload,
        battery_frozen(),
        lens,
        inputs,
        dossier,
        three(
            "verify the bundle under your own anchors",
            "check each input against its spine commitment",
            "re-execute the lens over the inputs",
        ),
        "2030-06-01T08:00:00Z",
    ).unwrap();
    proof {
        lemma_inputs(view);
    }
    view
}

proof fn lemma_view(
    view: FrozenView,
    graph: GraphView,
    authority: KeyPair,
    custodian: KeyPair,
    verifier: KeyPair,
    service: KeyPair,
    quorum_a: KeyPair,
    quorum_b: KeyPair,
)
    requires
        is_battery_dossier(view.bundle),
        battery_parts(view.bundle, authority, custodian, verifier, service),
        all_issued(
            seq![&quorum_a, &quorum_b],
            SigningDomain::Quorum,
            quorum_bytes(
                view.bundle.attestations@[0].statement.bytes(),
                "cn-attestation-quorum"@,
                2,
            ),
            view.bundle.attestations@[0].quorum->0@.signatures,
        ),
        first_error(view.input_errors()) is None,
        is_battery_graph(graph),
        directory_agrees(directory_of(graph), graph.nodes),
        cast_key_ids().no_duplicates() ==> registered_in(
            graph.nodes,
            key_id_of(quorum_a.spec_public()),
        ) == Some(quorum_a.spec_public()) && registered_in(
            graph.nodes,
            key_id_of(quorum_b.spec_public()),
        ) == Some(quorum_b.spec_public()),
        seeded_by(authority, "frozen/cn-samr"@),
        seeded_by(custodian, "frozen/weilian"@),
        seeded_by(verifier, "frozen/de-zoll"@),
        seeded_by(service, "frozen/cn-attest"@),
        seeded_by(quorum_a, "frozen/quorum-a"@),
        seeded_by(quorum_b, "frozen/quorum-b"@),
    ensures
        cast_key_ids().no_duplicates() ==> view.check(graph) == Ok::<Seq<DecisionView>, ErrorView>(
            seq![battery_decision(view.bundle.journal)],
        ),
{
    lemma_ids();
    lemma_cast_registered(graph, "cn-samr"@, "frozen/cn-samr"@, authority);
    lemma_cast_registered(graph, "weilian-shenzhen"@, "frozen/weilian"@, custodian);
    lemma_cast_registered(graph, "de-zoll"@, "frozen/de-zoll"@, verifier);
    lemma_cast_registered(graph, "cn-attestation-service"@, "frozen/cn-attest"@, service);
    if cast_key_ids().no_duplicates() {
        assert(cast_key_ids()[4] != cast_key_ids()[5]);
        lemma_quorum(view.bundle, graph, quorum_a, quorum_b);
        lemma_bundle(view.bundle, graph, authority, custodian, verifier, service);
    }
}

/// The frozen view of the battery pack, and a graph with the keys of all that
/// take part. The view checks out under the graph, provided that the ids of
/// these keys differ.
pub fn battery_view() -> (r: (FrozenView, TrustGraph))
    ensures
        is_battery_view(r.0),
        is_battery_graph(r.1@),
        cast_key_ids().no_duplicates() ==> r.0.check(r.1@) == Ok::<Seq<DecisionView>, ErrorView>(
            seq![battery_decision(r.0.bundle.journal)],
        ),
{
    let authority = seeded("frozen/cn-samr");
    let custodian = seeded("frozen/weilian");
    let verifier = seeded("frozen/de-zoll");
    let service = seeded("frozen/cn-attest");
    let quorum_a = seeded("frozen/quorum-a");
    let quorum_b = seeded("frozen/quorum-b");
    let graph = battery_graph(
        &authority,
        &custodian,
        &verifier,
        &service,
        &quorum_a,
        &quorum_b,
    );
    let dossier = battery_bundle(
        &authority,
        &custodian,
        &verifier,
        &service,
        &quorum_a,
        &quorum_b,
    );
    let view = battery_freeze(dossier);
    proof {
        lemma_view(
            view,
            graph@,
            authority,
            custodian,
            verifier,
            service,
            quorum_a,
            quorum_b,
        );
    }
    (view, graph)
}

} // verus!
