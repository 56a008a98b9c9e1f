//! Signatures in the name of a node: a signature counts only under a key that
//! is registered to the node that it names.

use vstd::prelude::*;

use crate::graph::{node_id_error, node_id_of, GraphView, NodeId, TrustGraph};
use crate::keyring::{is_key_id, key_id_of, KeyPair};
use crate::sign::{SignatureSlot, SigningDomain, SlotView};
use crate::text::cat2;
use crate::{ErrorView, SignatifError};

verus! {

/// What checking a signature in the name of a node gives: the id of the node,
/// or why the signature does not count. `role` stands in front of the error of
/// a bad node id; `missing` is the error when the node has no such key.
pub open spec fn signer_check(
    graph: GraphView,
    name: Seq<char>,
    role: Seq<char>,
    missing: Seq<char>,
    slot: SlotView,
    domain: SigningDomain,
    payload: Seq<u8>,
) -> Result<Seq<char>, ErrorView> {
    match node_id_of(name) {
        None => Err(ErrorView::Crypto(role + node_id_error(name).text())),
        Some(id) => match graph.key_of(id, slot.key_id) {
            None => Err(ErrorView::Crypto(missing)),
            Some(key) => match slot.check(domain, payload, key) {
                Err(e) => Err(e),
                Ok(_) => Ok(id),
            },
        },
    }
}

/// Checks a signature in the name of a node.
pub(crate) fn check_signer(
    graph: &TrustGraph,
    name: &str,
    role: &str,
    missing: &str,
    slot: &SignatureSlot,
    domain: SigningDomain,
    payload: &[u8],
) -> (r: Result<NodeId, SignatifError>)
    ensures
        match signer_check(graph@, name@, role@, missing@, slot@, domain, payload@) {
            Ok(id) => r matches Ok(n) && n@ == id,
            Err(f) => r matches Err(e) && e@ == f,
        },
{
    let id = match NodeId::new(name) {
        Err(e) => {
            let why = e.to_string();
            return Err(SignatifError::Crypto(cat2(role, why.as_str())));
        },
        Ok(n) => n,
    };
    let public = match graph.node(&id) {
        None => {
            return Err(SignatifError::crypto(missing));
        },
        Some(node) => match node.key(&slot.key_id) {
            None => {
                return Err(SignatifError::crypto(missing));
            },
            Some(k) => k,
        },
    };
    match slot.verify(domain, payload, public) {
        Err(e) => Err(e),
        Ok(()) => Ok(id),
    }
}

/// Whether a slot is the one that a key pair makes over a payload in a domain;
/// it verifies under the pair's public key, which it names by a proper id.
pub open spec fn issued(
    key: KeyPair,
    domain: SigningDomain,
    payload: Seq<u8>,
    slot: SlotView,
) -> bool {
    &&& key.slot(domain, payload) == Some(slot)
    &&& slot.check(domain, payload, key.spec_public()) == Ok::<(), ErrorView>(())
    &&& is_key_id(slot.key_id)
}

/// Whether slots are those that key pairs make over a payload in a domain, one
/// by each pair.
pub open spec fn all_issued(
    keys: Seq<&KeyPair>,
    domain: SigningDomain,
    payload: Seq<u8>,
    slots: Seq<SlotView>,
) -> bool {
    slots.len() == keys.len() && forall|i: int|
        0 <= i < slots.len() ==> issued(*keys[i], domain, payload, #[trigger] slots[i])
}

/// Whether a key pair is registered to the node that a text names.
pub open spec fn registered(graph: GraphView, name: Seq<char>, key: KeyPair) -> bool {
    node_id_of(name) matches Some(id) && graph.key_of(id, key_id_of(key.spec_public())) == Some(
        key.spec_public(),
    )
}

/// What a key pair issued is accepted wherever the pair is registered to the
/// named node.
pub proof fn issued_signatures_are_accepted(
    graph: GraphView,
    name: Seq<char>,
    role: Seq<char>,
    missing: Seq<char>,
    key: KeyPair,
    domain: SigningDomain,
    payload: Seq<u8>,
    slot: SlotView,
)
    requires
        issued(key, domain, payload, slot),
        registered(graph, name, key),
    ensures
        signer_check(graph, name, role, missing, slot, domain, payload) == Ok::<
            Seq<char>,
            ErrorView,
        >(node_id_of(name)->0),
{
}

/// Whatever is accepted verifies under a key that is registered to the named
/// node: a sound signature from any other key does not count.
pub proof fn accepted_signers_are_registered(
    graph: GraphView,
    name: Seq<char>,
    role: Seq<char>,
    missing: Seq<char>,
    slot: SlotView,
    domain: SigningDomain,
    payload: Seq<u8>,
)
    requires
        signer_check(graph, name, role, missing, slot, domain, payload) is Ok,
    ensures
        node_id_of(name) is Some,
        graph.key_of(node_id_of(name)->0, slot.key_id) matches Some(key) && slot.verifies(
            domain,
            payload,
            key,
        ),
{
}

} // verus!
