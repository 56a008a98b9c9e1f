//! The delegation trust graph: nodes with registered keys, scoped delegation
//! credentials as edges, the lists that anchor roots, and the search for a path
//! from an anchored root to the owner of a key.
//!
//! The graph stays acyclic: an edge that would close a cycle is refused. A path
//! counts only if every credential on it verifies, the scopes narrow along it,
//! the effective scope admits the request with all its conditions, and the
//! verifier's anchor bundle accepts the root.

pub mod search;
pub mod walk;

use vstd::bytes::{spec_u32_to_le_bytes, u32_to_le_bytes, u64_to_le_bytes};
use vstd::prelude::*;

use crate::bytes::utf8;
use crate::canon::{fields, i64_bytes};
use crate::keyring::{key_id_of, KeyId, KeyPair, KeyView, PublicKey};
use crate::maps::TextMap;
use crate::party::PartyClass;
use crate::scope::{DelegationScope, ScopeView};
use crate::sets::{ascending, texts, StringSet};
use crate::sign::{
    canonical_fields, copy_slots, signing_error, slot_views, SignatureSlot, SigningDomain, SlotView,
};
use crate::signer::issued;
use crate::text::{
    all_graphic, cat3, cat4, cat7, count, decimal, graphic, lower_all, lowered, same_text,
    string_of, text_before, text_lt, trim, trimmed, upper_all, uppered,
};
use crate::time::Timestamp;
use crate::{ErrorView, SignatifError};

verus! {

/// The id of a trust graph node.
#[derive(Debug, PartialEq, Eq, PartialOrd, Ord, Hash)]
pub struct NodeId(String);

impl View for NodeId {
    type V = Seq<char>;

    closed spec fn view(&self) -> Seq<char> {
        self.0@
    }
}

/// The node id that a text denotes: without white space at its ends and in
/// lower case, 1 to 128 printing ASCII characters.
pub open spec fn node_id_of(raw: Seq<char>) -> Option<Seq<char>> {
    let n = lowered(trimmed(raw));
    if 0 < n.len() <= 128 && all_graphic(n) {
        Some(n)
    } else {
        None
    }
}

/// The error of a text that denotes no node id.
pub open spec fn node_id_error(raw: Seq<char>) -> ErrorView {
    ErrorView::Validation("bad node id `"@ + raw + "`"@)
}

impl Clone for NodeId {
    fn clone(&self) -> (r: NodeId)
        ensures
            r == *self,
    {
        NodeId(self.0.clone())
    }
}

impl NodeId {
    /// Reads a node id.
    pub fn new(raw: &str) -> (r: Result<NodeId, SignatifError>)
        ensures
            r is Ok == node_id_of(raw@) is Some,
            r matches Ok(id) ==> Some(id@) == node_id_of(raw@),
            r matches Err(e) ==> e@ == node_id_error(raw@),
    {
        let n = lower_all(trim(raw).as_slice());
        if n.len() == 0 || n.len() > 128 || !graphic(n.as_slice()) {
            return Err(SignatifError::Validation(cat3("bad node id `", raw, "`")));
        }
        Ok(NodeId(string_of(n.as_slice())))
    }

    /// The id with a text that was an id before.
    pub(crate) fn listed(text: &String) -> (r: NodeId)
        ensures
            r@ == text@,
    {
        NodeId(text.clone())
    }

    /// The text of the id.
    pub fn as_str(&self) -> (r: &str)
        ensures
            r@ == self@,
    {
        self.0.as_str()
    }

    /// The text of the id.
    pub fn to_string(&self) -> (r: String)
        ensures
            r@ == self@,
    {
        self.0.clone()
    }

    /// Whether two ids are the same.
    pub fn same(&self, other: &NodeId) -> (r: bool)
        ensures
            r == (self@ == other@),
    {
        same_text(self.0.as_str(), other.0.as_str())
    }
}

/// The kind of a node.
#[derive(Debug, PartialEq, Eq)]
pub enum NodeKind {
    /// A root.
    Root,
    /// A group that acts by a number of its members together.
    ThresholdGroup {
        /// How many distinct members must sign.
        threshold: usize,
        /// The ids of the members.
        members: StringSet,
    },
    /// A delegated authority.
    Delegated,
    /// The owner of a signing key at the end of a path.
    End,
}

/// The kind of a node as a mathematical value.
#[verifier::ext_equal]
pub enum KindView {
    /// See [`NodeKind::Root`].
    Root,
    /// See [`NodeKind::ThresholdGroup`].
    ThresholdGroup { threshold: nat, members: Seq<Seq<char>> },
    /// See [`NodeKind::Delegated`].
    Delegated,
    /// See [`NodeKind::End`].
    End,
}

impl View for NodeKind {
    type V = KindView;

    open spec fn view(&self) -> KindView {
        match self {
            NodeKind::Root => KindView::Root,
            NodeKind::ThresholdGroup { threshold, members } => KindView::ThresholdGroup {
                threshold: *threshold as nat,
                members: members@,
            },
            NodeKind::Delegated => KindView::Delegated,
            NodeKind::End => KindView::End,
        }
    }
}

impl Clone for NodeKind {
    fn clone(&self) -> (r: NodeKind)
        ensures
            r@ == self@,
    {
        match self {
            NodeKind::Root => NodeKind::Root,
            NodeKind::ThresholdGroup { threshold, members } => NodeKind::ThresholdGroup {
                threshold: *threshold,
                members: members.clone(),
            },
            NodeKind::Delegated => NodeKind::Delegated,
            NodeKind::End => NodeKind::End,
        }
    }
}

impl NodeKind {
    /// Whether the node is a root.
    pub fn is_root(&self) -> (r: bool)
        ensures
            r == (self@ is Root),
    {
        match self {
            NodeKind::Root => true,
            _ => false,
        }
    }
}

/// A public key registered to a node.
#[derive(Debug, PartialEq, Eq)]
pub struct RegisteredKey {
    /// The id of the key.
    pub key_id: KeyId,
    /// The key.
    pub public: PublicKey,
}

impl View for RegisteredKey {
    type V = (Seq<char>, KeyView);

    open spec fn view(&self) -> (Seq<char>, KeyView) {
        (self.key_id@, self.public@)
    }
}

impl Clone for RegisteredKey {
    fn clone(&self) -> (r: RegisteredKey)
        ensures
            r@ == self@,
    {
        RegisteredKey { key_id: self.key_id.clone(), public: self.public }
    }
}

impl RegisteredKey {
    /// The public side of a key pair, for registration.
    pub fn of(key: &KeyPair) -> (r: RegisteredKey)
        ensures
            r@ == (key_id_of(key.spec_public()), key.spec_public()),
    {
        RegisteredKey { key_id: key.key_id().clone(), public: *key.public() }
    }
}

/// The value of the first pair with a key.
pub open spec fn first_value<V>(pairs: Seq<(Seq<char>, V)>, key: Seq<char>) -> Option<V>
    decreases pairs.len(),
{
    if pairs.len() == 0 {
        None
    } else {
        match first_value(pairs.drop_last(), key) {
            Some(v) => Some(v),
            None => if pairs.last().0 == key {
                Some(pairs.last().1)
            } else {
                None
            },
        }
    }
}

proof fn lemma_first_value_prefix<V>(pairs: Seq<(Seq<char>, V)>, n: int, key: Seq<char>)
    requires
        0 <= n <= pairs.len(),
        first_value(pairs.take(n), key) is Some,
    ensures
        first_value(pairs, key) == first_value(pairs.take(n), key),
    decreases pairs.len() - n,
{
    if n == pairs.len() {
        assert(pairs.take(n) =~= pairs);
    } else {
        assert(pairs.take(n + 1).drop_last() =~= pairs.take(n));
        lemma_first_value_prefix(pairs, n + 1, key);
    }
}

/// A node of the trust graph.
#[derive(Debug, PartialEq, Eq)]
pub struct DelegationNode {
    /// The id.
    pub id: NodeId,
    /// The kind.
    pub kind: NodeKind,
    /// The keys registered to the node.
    pub keys: Vec<RegisteredKey>,
    /// The class of the party, if declared.
    pub party: Option<PartyClass>,
}

/// A node as a mathematical value.
#[verifier::ext_equal]
pub struct NodeView {
    /// See [`DelegationNode::id`].
    pub id: Seq<char>,
    /// See [`DelegationNode::kind`].
    pub kind: KindView,
    /// See [`DelegationNode::keys`].
    pub keys: Seq<(Seq<char>, KeyView)>,
    /// See [`DelegationNode::party`].
    pub party: Option<PartyClass>,
}

/// The keys of a list as mathematical values.
pub open spec fn registered_views(s: Seq<RegisteredKey>) -> Seq<(Seq<char>, KeyView)> {
    s.map_values(|k: RegisteredKey| k@)
}

impl View for DelegationNode {
    type V = NodeView;

    open spec fn view(&self) -> NodeView {
        NodeView {
            id: self.id@,
            kind: self.kind@,
            keys: registered_views(self.keys@),
            party: self.party,
        }
    }
}

impl Clone for DelegationNode {
    fn clone(&self) -> (r: DelegationNode)
        ensures
            r@ == self@,
    {
        let mut keys: Vec<RegisteredKey> = Vec::new();
        let mut i: usize = 0;
        while i < self.keys.len()
            invariant
                i <= self.keys.len(),
                registered_views(keys@) =~= registered_views(self.keys@).take(i as int),
            decreases self.keys.len() - i,
        {
            let ghost before = registered_views(keys@);
            keys.push(self.keys[i].clone());
            assert(registered_views(keys@) =~= before.push(self.keys@[i as int]@));
            i += 1;
        }
        DelegationNode {
            id: self.id.clone(),
            kind: self.kind.clone(),
            keys,
            party: self.party,
        }
    }
}

impl DelegationNode {
    /// A node without keys.
    pub fn new(id: NodeId, kind: NodeKind) -> (r: DelegationNode)
        ensures
            r@ == (NodeView { id: id@, kind: kind@, keys: Seq::empty(), party: None }),
    {
        let r = DelegationNode { id, kind, keys: Vec::new(), party: None };
        assert(r@.keys =~= Seq::<(Seq<char>, KeyView)>::empty());
        r
    }

    /// Registers a key; a key id that is registered already keeps its key.
    pub fn register(&mut self, key: RegisteredKey)
        ensures
            final(self)@ == (if first_value(old(self)@.keys, key@.0) is Some {
                old(self)@
            } else {
                NodeView { keys: old(self)@.keys.push(key@), ..old(self)@ }
            }),
    {
        if self.key(&key.key_id).is_none() {
            self.keys.push(key);
            assert(self@.keys =~= old(self)@.keys.push(key@));
        }
    }

    /// The registered key with an id.
    pub fn key(&self, key_id: &KeyId) -> (r: Option<&PublicKey>)
        ensures
            r is Some == first_value(self@.keys, key_id@) is Some,
            r matches Some(k) ==> Some(k@) == first_value(self@.keys, key_id@),
    {
        let ghost all = self@.keys;
        let mut i: usize = 0;
        assert(all.take(0) =~= Seq::<(Seq<char>, KeyView)>::empty());
        while i < self.keys.len()
            invariant
                i <= self.keys.len(),
                all == registered_views(self.keys@),
                first_value(all.take(i as int), key_id@) is None,
            decreases self.keys.len() - i,
        {
            proof {
                assert(all.take(i + 1).drop_last() =~= all.take(i as int));
                assert(all.take(i + 1).last() == self.keys@[i as int]@);
            }
            if self.keys[i].key_id.same(key_id) {
                proof {
                    lemma_first_value_prefix(all, i + 1, key_id@);
                }
                return Some(&self.keys[i].public);
            }
            i += 1;
        }
        assert(all.take(i as int) =~= all);
        None
    }
}

/// A scoped delegation from a parent to a child, signed by the parent.
#[derive(Debug, PartialEq, Eq)]
pub struct DelegationCredential {
    /// The delegating node.
    pub parent: NodeId,
    /// The receiving node.
    pub child: NodeId,
    /// The scope granted.
    pub scope: DelegationScope,
    /// The parent's signatures.
    pub signatures: Vec<SignatureSlot>,
}

/// A credential as a mathematical value.
#[verifier::ext_equal]
pub struct CredentialView {
    /// See [`DelegationCredential::parent`].
    pub parent: Seq<char>,
    /// See [`DelegationCredential::child`].
    pub child: Seq<char>,
    /// See [`DelegationCredential::scope`].
    pub scope: ScopeView,
    /// See [`DelegationCredential::signatures`].
    pub signatures: Seq<SlotView>,
}

impl View for DelegationCredential {
    type V = CredentialView;

    open spec fn view(&self) -> CredentialView {
        CredentialView {
            parent: self.parent@,
            child: self.child@,
            scope: self.scope@,
            signatures: slot_views(self.signatures@),
        }
    }
}

/// The bytes that the signatures of a credential cover.
pub open spec fn credential_bytes(
    parent: Seq<char>,
    child: Seq<char>,
    scope: ScopeView,
) -> Seq<u8> {
    fields(seq![utf8(parent), utf8(child), scope.bytes()])
}

impl CredentialView {
    /// The bytes that the signatures cover.
    pub open spec fn bytes(self) -> Seq<u8> {
        credential_bytes(self.parent, self.child, self.scope)
    }
}

impl Clone for DelegationCredential {
    fn clone(&self) -> (r: DelegationCredential)
        ensures
            r@ == self@,
    {
        DelegationCredential {
            parent: self.parent.clone(),
            child: self.child.clone(),
            scope: self.scope.clone(),
            signatures: copy_slots(&self.signatures),
        }
    }
}

impl DelegationCredential {
    /// The bytes that the signatures cover.
    pub fn canonical_bytes(&self) -> (r: Vec<u8>)
        ensures
            r@ == self@.bytes(),
    {
        let scope = self.scope.canonical_bytes();
        let parts: [&[u8]; 3] = [
            self.parent.as_str().as_bytes(),
            self.child.as_str().as_bytes(),
            scope.as_slice(),
        ];
        assert(crate::sign::slice_views(parts@) =~= seq![
            utf8(self.parent@),
            utf8(self.child@),
            self.scope@.bytes(),
        ]);
        canonical_fields(parts.as_slice())
    }

    /// Makes a credential and signs it with a key of the parent.
    pub fn mint_sign(
        parent: &NodeId,
        child: &NodeId,
        scope: DelegationScope,
        parent_key: &KeyPair,
    ) -> (r: Result<DelegationCredential, SignatifError>)
        ensures
            r is Ok == parent_key.slot(
                SigningDomain::Delegation,
                credential_bytes(parent@, child@, scope@),
            ) is Some,
            r matches Ok(c) ==> c@ == (CredentialView {
                parent: parent@,
                child: child@,
                scope: scope@,
                signatures: seq![
                    parent_key.slot(
                        SigningDomain::Delegation,
                        credential_bytes(parent@, child@, scope@),
                    )->0,
                ],
            }) && issued(*parent_key, SigningDomain::Delegation, c@.bytes(), c@.signatures[0]),
            r matches Err(e) ==> e@ == signing_error(),
    {
        let mut cred = DelegationCredential {
            parent: parent.clone(),
            child: child.clone(),
            scope,
            signatures: Vec::new(),
        };
        match cred.co_sign_by(parent_key) {
            Err(e) => Err(e),
            Ok(()) => {
                assert(cred@.signatures =~= seq![
                    parent_key.slot(
                        SigningDomain::Delegation,
                        credential_bytes(parent@, child@, scope@),
                    )->0,
                ]);
                Ok(cred)
            },
        }
    }

    /// Adds a signature of the parent. Where the key cannot sign, the
    /// credential stays as it is.
    pub fn co_sign_by(&mut self, parent_key: &KeyPair) -> (r: Result<(), SignatifError>)
        ensures
            r is Ok == parent_key.slot(SigningDomain::Delegation, old(self)@.bytes()) is Some,
            r is Ok ==> final(self)@ == (CredentialView {
                signatures: old(self)@.signatures.push(
                    parent_key.slot(SigningDomain::Delegation, old(self)@.bytes())->0,
                ),
                ..old(self)@
            }) && issued(
                *parent_key,
                SigningDomain::Delegation,
                old(self)@.bytes(),
                final(self)@.signatures.last(),
            ),
            r matches Err(e) ==> e@ == signing_error() && *final(self) == *old(self),
    {
        let bytes = self.canonical_bytes();
        match SignatureSlot::sign(parent_key, SigningDomain::Delegation, bytes.as_slice()) {
            Err(e) => Err(e),
            Ok(slot) => {
                self.signatures.push(slot);
                assert(self@.signatures =~= old(self)@.signatures.push(slot@));
                Ok(())
            },
        }
    }
}

/// A directory of public keys by key id.
#[derive(Debug, Clone, PartialEq, Eq)]
pub struct KeyDirectory {
    keys: TextMap<PublicKey>,
}

impl Default for KeyDirectory {
    fn default() -> (r: KeyDirectory)
        ensures
            r.ids() == Seq::<Seq<char>>::empty(),
            forall|id: Seq<char>| #[trigger] r.lookup(id) is None,
    {
        KeyDirectory::new()
    }
}

impl KeyDirectory {
    /// The key under an id.
    pub closed spec fn lookup(self, id: Seq<char>) -> Option<KeyView> {
        match self.keys.at(id) {
            Some(k) => Some(k@),
            None => None,
        }
    }

    /// The ids in ascending order.
    pub closed spec fn ids(self) -> Seq<Seq<char>> {
        self.keys.keys()
    }

    /// The empty directory.
    pub fn new() -> (r: KeyDirectory)
        ensures
            r.ids() == Seq::<Seq<char>>::empty(),
            forall|id: Seq<char>| #[trigger] r.lookup(id) is None,
    {
        KeyDirectory { keys: TextMap::new() }
    }

    /// Registers a public key under its derived id.
    pub fn register(&mut self, public: &PublicKey)
        ensures
            forall|id: Seq<char>| #[trigger]
                final(self).lookup(id) == (if id == key_id_of(public@) {
                    Some(public@)
                } else {
                    old(self).lookup(id)
                }),
            final(self).ids().to_set() == old(self).ids().to_set().insert(key_id_of(public@)),
            final(self).ids().len() == old(self).ids().len() + (if old(self).lookup(
                key_id_of(public@),
            ) is Some {
                0int
            } else {
                1int
            }),
            ascending(final(self).ids()),
    {
        let id = KeyId::of(public);
        self.keys.insert(id.as_str(), *public);
    }

    /// Puts a public key under a given id.
    pub(crate) fn put(&mut self, id: &KeyId, public: &PublicKey)
        ensures
            forall|k: Seq<char>| #[trigger]
                final(self).lookup(k) == (if k == id@ {
                    Some(public@)
                } else {
                    old(self).lookup(k)
                }),
            final(self).ids().to_set() == old(self).ids().to_set().insert(id@),
            final(self).ids().len() == old(self).ids().len() + (if old(self).lookup(id@) is Some {
                0int
            } else {
                1int
            }),
            ascending(final(self).ids()),
    {
        self.keys.insert(id.as_str(), *public);
    }

    /// The key under an id.
    pub fn resolve(&self, key_id: &KeyId) -> (r: Option<&PublicKey>)
        ensures
            r is Some == self.lookup(key_id@) is Some,
            r matches Some(k) ==> Some(k@) == self.lookup(key_id@),
    {
        self.keys.get(key_id.as_str())
    }

    /// The ids that resolve, in ascending order.
    pub fn key_ids(&self) -> (r: Vec<String>)
        ensures
            texts(r@) == self.ids(),
            ascending(self.ids()),
            forall|id: Seq<char>| #[trigger]
                texts(r@).contains(id) == self.lookup(id) is Some,
    {
        self.keys.reveal_order();
        let mut out: Vec<String> = Vec::new();
        let n: usize = self.keys.len();
        let mut i: usize = 0;
        while i < n
            invariant
                n == self.keys.keys().len(),
                i <= n,
                texts(out@) =~= self.ids().take(i as int),
            decreases n - i,
        {
            let ghost before = texts(out@);
            out.push(self.keys.key_at(i).clone());
            assert(texts(out@) =~= before.push(self.ids()[i as int]));
            i += 1;
        }
        assert(texts(out@) =~= self.ids());
        out
    }

    /// The number of keys.
    pub fn len(&self) -> (r: usize)
        ensures
            r == self.ids().len(),
    {
        self.keys.len()
    }

    /// Whether there are no keys.
    pub fn is_empty(&self) -> (r: bool)
        ensures
            r == (self.ids().len() == 0),
            r == (forall|id: Seq<char>| #[trigger] self.lookup(id) is None),
    {
        proof {
            if self.ids().len() > 0 {
                listed_ids_resolve(*self, self.ids()[0]);
                assert(self.ids().contains(self.ids()[0]));
            }
        }
        self.keys.len() == 0
    }
}

/// An id is listed in a directory exactly when it resolves there.
pub proof fn listed_ids_resolve(directory: KeyDirectory, id: Seq<char>)
    ensures
        directory.ids().contains(id) <==> directory.lookup(id) is Some,
{
}

/// An entry of a trust list.
#[derive(Debug, Clone, PartialEq, Eq)]
pub struct TrustListEntry {
    /// The trusted root.
    pub node: NodeId,
    /// Since when it is trusted.
    pub not_before: Timestamp,
    /// Since when it is not trusted any more, if so.
    pub superseded_at: Option<Timestamp>,
}

impl TrustListEntry {
    /// Whether the entry is in force at a moment.
    pub open spec fn in_force(self, t: Timestamp) -> bool {
        self.not_before.le(t) && (self.superseded_at matches Some(s) ==> t.lt(s))
    }

    /// Whether the entry is in force at a moment.
    pub fn in_force_at(&self, t: Timestamp) -> (r: bool)
        ensures
            r == self.in_force(t),
    {
        self.not_before.not_after(t) && match self.superseded_at {
            None => true,
            Some(s) => t.before(s),
        }
    }
}

/// The roots that a jurisdiction accepts.
#[derive(Debug, Clone, PartialEq, Eq)]
pub struct TrustList {
    /// The jurisdiction, in upper case.
    pub jurisdiction: String,
    /// The entries by root id.
    pub entries: TextMap<TrustListEntry>,
}

impl TrustList {
    /// Whether the list accepts a root at a moment.
    pub open spec fn accepts(self, node: Seq<char>, t: Timestamp) -> bool {
        self.entries.at(node) matches Some(e) && e.in_force(t)
    }

    /// An empty list.
    pub fn new(jurisdiction: &str) -> (r: TrustList)
        ensures
            r.jurisdiction@ == uppered(trimmed(jurisdiction@)),
            r.entries.keys() == Seq::<Seq<char>>::empty(),
    {
        let j = upper_all(trim(jurisdiction).as_slice());
        TrustList { jurisdiction: string_of(j.as_slice()), entries: TextMap::new() }
    }

    /// Trusts a root from a moment on.
    pub fn trust(&mut self, node: NodeId, not_before: Timestamp)
        ensures
            final(self).jurisdiction == old(self).jurisdiction,
            forall|id: Seq<char>| #[trigger]
                final(self).entries.at(id) == (if id == node@ {
                    Some(TrustListEntry { node, not_before, superseded_at: None })
                } else {
                    old(self).entries.at(id)
                }),
    {
        let key = node.to_string();
        self.entries.insert(key.as_str(), TrustListEntry { node, not_before, superseded_at: None });
    }

    /// Withdraws a root as of a moment; a root that is not listed is left
    /// alone.
    pub fn supersede(&mut self, node: &NodeId, at: Timestamp)
        ensures
            final(self).jurisdiction == old(self).jurisdiction,
            forall|id: Seq<char>| #[trigger]
                final(self).entries.at(id) == (match old(self).entries.at(id) {
                    Some(e) => Some(
                        if id == node@ {
                            TrustListEntry { superseded_at: Some(at), ..e }
                        } else {
                            e
                        },
                    ),
                    None => None,
                }),
    {
        let changed = match self.entries.get(node.as_str()) {
            None => None,
            Some(e) => Some(
                TrustListEntry {
                    node: e.node.clone(),
                    not_before: e.not_before,
                    superseded_at: Some(at),
                },
            ),
        };
        if let Some(e) = changed {
            self.entries.insert(node.as_str(), e);
        }
    }

    /// Whether the list accepts a root at a moment.
    pub fn accepts_at(&self, node: &NodeId, t: Timestamp) -> (r: bool)
        ensures
            r == self.accepts(node@, t),
    {
        match self.entries.get(node.as_str()) {
            None => false,
            Some(e) => e.in_force_at(t),
        }
    }
}

/// A witness's attestation of a root.
#[derive(Debug, Clone, PartialEq, Eq)]
pub struct WitnessAttestation {
    /// The witness.
    pub witness: NodeId,
    /// When it attested.
    pub at: Timestamp,
    /// Its signature.
    pub slot: SignatureSlot,
}

/// The bytes that a witness signs.
pub open spec fn witness_bytes(node: Seq<char>, at: Timestamp) -> Seq<u8> {
    fields(seq![utf8(node), i64_bytes(at.secs), spec_u32_to_le_bytes(at.nanos)])
}

impl WitnessAttestation {
    /// The bytes that a witness signs.
    pub fn canonical_bytes(node: &NodeId, at: Timestamp) -> (r: Vec<u8>)
        ensures
            r@ == witness_bytes(node@, at),
    {
        let secs = u64_to_le_bytes(at.secs as u64);
        let nanos = u32_to_le_bytes(at.nanos);
        let parts: [&[u8]; 3] = [
            node.as_str().as_bytes(),
            secs.as_slice(),
            nanos.as_slice(),
        ];
        assert(crate::sign::slice_views(parts@) =~= seq![
            utf8(node@),
            i64_bytes(at.secs),
            spec_u32_to_le_bytes(at.nanos),
        ]);
        canonical_fields(parts.as_slice())
    }

    /// Attests a root with a key of the witness.
    pub fn mint_sign(witness: &NodeId, node: &NodeId, at: Timestamp, witness_key: &KeyPair) -> (r:
        Result<WitnessAttestation, SignatifError>)
        ensures
            r is Ok == witness_key.slot(
                SigningDomain::MasterListWitness,
                witness_bytes(node@, at),
            ) is Some,
            r matches Ok(a) ==> a.witness@ == witness@ && a.at == at && issued(
                *witness_key,
                SigningDomain::MasterListWitness,
                witness_bytes(node@, at),
                a.slot@,
            ),
            r matches Err(e) ==> e@ == signing_error(),
    {
        let payload = WitnessAttestation::canonical_bytes(node, at);
        match SignatureSlot::sign(
            witness_key,
            SigningDomain::MasterListWitness,
            payload.as_slice(),
        ) {
            Err(e) => Err(e),
            Ok(slot) => Ok(WitnessAttestation { witness: witness.clone(), at, slot }),
        }
    }

    /// Whether the attestation of a root verifies under the key registered for
    /// its witness.
    pub open spec fn holds(self, node: Seq<char>, witnesses: TextMap<PublicKey>) -> bool {
        witnesses.at(self.witness@) matches Some(k) && self.slot@.verifies(
            SigningDomain::MasterListWitness,
            witness_bytes(node, self.at),
            k@,
        )
    }
}

/// The witnesses whose attestation of a root holds.
pub open spec fn holding_witnesses(
    attestations: Seq<WitnessAttestation>,
    node: Seq<char>,
    witnesses: TextMap<PublicKey>,
) -> Set<Seq<char>>
    decreases attestations.len(),
{
    if attestations.len() == 0 {
        Set::empty()
    } else {
        let front = holding_witnesses(attestations.drop_last(), node, witnesses);
        if attestations.last().holds(node, witnesses) {
            front.insert(attestations.last().witness@)
        } else {
            front
        }
    }
}

/// A root and the witnesses that attest it.
#[derive(Debug, Clone, PartialEq, Eq)]
pub struct MasterListEntry {
    /// The root.
    pub node: NodeId,
    /// The attestations.
    pub attestations: Vec<WitnessAttestation>,
}

impl MasterListEntry {
    /// The witnesses whose attestation holds.
    pub open spec fn holding(self, witnesses: TextMap<PublicKey>) -> Set<Seq<char>> {
        holding_witnesses(self.attestations@, self.node@, witnesses)
    }

    /// The number of distinct witnesses whose attestation holds.
    pub fn verified_witnesses(&self, witnesses: &TextMap<PublicKey>) -> (r: usize)
        ensures
            r == self.holding(*witnesses).len(),
    {
        let mut verified = StringSet::new();
        let mut i: usize = 0;
        assert(self.attestations@.take(0) =~= Seq::<WitnessAttestation>::empty());
        while i < self.attestations.len()
            invariant
                i <= self.attestations.len(),
                verified.members() == holding_witnesses(
                    self.attestations@.take(i as int),
                    self.node@,
                    *witnesses,
                ),
            decreases self.attestations.len() - i,
        {
            proof {
                assert(self.attestations@.take(i + 1).drop_last() =~= self.attestations@.take(
                    i as int,
                ));
            }
            let att = &self.attestations[i];
            if let Some(key) = witnesses.get(att.witness.as_str()) {
                let payload = WitnessAttestation::canonical_bytes(&self.node, att.at);
                if att.slot.verify(
                    SigningDomain::MasterListWitness,
                    payload.as_slice(),
                    key,
                ).is_ok() {
                    verified.insert(att.witness.as_str());
                }
            }
            i += 1;
        }
        assert(self.attestations@.take(i as int) =~= self.attestations@);
        verified.len()
    }

    /// Whether at least `m` distinct witnesses attest the root.
    pub fn accepted(&self, m: usize, witnesses: &TextMap<PublicKey>) -> (r: bool)
        ensures
            r == (self.holding(*witnesses).len() >= m),
    {
        self.verified_witnesses(witnesses) >= m
    }
}

/// The list of roots attested by a number of independent witnesses.
#[derive(Debug, Clone, PartialEq, Eq)]
pub struct MasterList {
    /// How many distinct witnesses are needed.
    pub m: usize,
    /// How many witnesses there are.
    pub k: usize,
    /// The keys of the witnesses.
    pub witnesses: TextMap<PublicKey>,
    /// The entries by root id.
    pub entries: TextMap<MasterListEntry>,
}

impl MasterList {
    /// Whether enough witnesses attest a root.
    pub open spec fn spec_accepts(self, node: Seq<char>) -> bool {
        self.entries.at(node) matches Some(e) && e.holding(self.witnesses).len() >= self.m
    }

    /// A list without entries.
    pub fn new(m: usize, witnesses: TextMap<PublicKey>) -> (r: MasterList)
        ensures
            r.m == m,
            r.k == witnesses.keys().len(),
            r.witnesses == witnesses,
            r.entries.keys() == Seq::<Seq<char>>::empty(),
    {
        let k = witnesses.len();
        MasterList { m, k, witnesses, entries: TextMap::new() }
    }

    /// Puts an entry under its root, in place of the one that was there.
    pub fn upsert(&mut self, entry: MasterListEntry)
        ensures
            final(self).m == old(self).m,
            final(self).k == old(self).k,
            final(self).witnesses == old(self).witnesses,
            forall|id: Seq<char>| #[trigger]
                final(self).entries.at(id) == (if id == entry.node@ {
                    Some(entry)
                } else {
                    old(self).entries.at(id)
                }),
    {
        let key = entry.node.to_string();
        self.entries.insert(key.as_str(), entry);
    }

    /// Whether enough witnesses attest a root.
    pub fn accepts(&self, node: &NodeId) -> (r: bool)
        ensures
            r == self.spec_accepts(node@),
    {
        match self.entries.get(node.as_str()) {
            None => false,
            Some(e) => e.accepted(self.m, &self.witnesses),
        }
    }
}

/// What a verifier anchors trust in.
#[derive(Debug, Clone, PartialEq, Eq)]
pub struct AnchorBundle {
    /// The verifier's jurisdiction.
    pub jurisdiction: String,
    /// The trust lists consulted.
    pub trust_lists: Vec<TrustList>,
    /// The master list.
    pub master: MasterList,
}

impl AnchorBundle {
    /// Whether a trust list in force lists a root at a moment.
    pub open spec fn listed(self, node: Seq<char>, at: Timestamp) -> bool {
        exists|i: int|
            0 <= i < self.trust_lists@.len() && (#[trigger] self.trust_lists@[i]).accepts(node, at)
    }

    /// Whether the bundle anchors a root at a moment, and the error if not.
    pub open spec fn anchors(self, node: Seq<char>, at: Timestamp) -> Result<(), ErrorView> {
        if !self.listed(node, at) {
            Err(
                ErrorView::Trust(
                    "root `"@ + node + "` is not in any trust list in force at "@ + at.text(),
                ),
            )
        } else if !self.master.spec_accepts(node) {
            Err(
                ErrorView::Trust(
                    "root `"@ + node + "` lacks a "@ + decimal(self.master.m as nat) + "/"@
                        + decimal(self.master.k as nat) + " master-list witness quorum"@,
                ),
            )
        } else {
            Ok(())
        }
    }

    /// Checks that the bundle anchors a root at a moment: some trust list lists
    /// it, and enough witnesses attest it.
    pub fn accepts_root(&self, node: &NodeId, at: Timestamp) -> (r: Result<(), SignatifError>)
        ensures
            crate::outcome(r) == self.anchors(node@, at),
    {
        let mut listed = false;
        let mut i: usize = 0;
        while i < self.trust_lists.len()
            invariant
                i <= self.trust_lists.len(),
                listed == (exists|k: int|
                    0 <= k < i && (#[trigger] self.trust_lists@[k]).accepts(node@, at)),
            decreases self.trust_lists.len() - i,
        {
            if self.trust_lists[i].accepts_at(node, at) {
                listed = true;
            }
            i += 1;
        }
        if !listed {
            let when = at.to_string();
            return Err(
                SignatifError::Trust(
                    cat4(
                        "root `",
                        node.as_str(),
                        "` is not in any trust list in force at ",
                        when.as_str(),
                    ),
                ),
            );
        }
        if !self.master.accepts(node) {
            let m = count(self.master.m);
            let k = count(self.master.k);
            return Err(
                SignatifError::Trust(
                    cat7(
                        "root `",
                        node.as_str(),
                        "` lacks a ",
                        m.as_str(),
                        "/",
                        k.as_str(),
                        " master-list witness quorum",
                    ),
                ),
            );
        }
        Ok(())
    }
}

/// A path from an anchored root to the owner of a key.
#[derive(Debug, Clone, PartialEq, Eq)]
pub struct TrustPath {
    /// The root.
    pub root: NodeId,
    /// The owner of the key.
    pub end: NodeId,
    /// The credentials from the root on.
    pub credentials: Vec<DelegationCredential>,
    /// The effective scope of the path.
    pub effective_scope: DelegationScope,
}

/// The credentials of a list as mathematical values.
pub open spec fn credential_views(s: Seq<DelegationCredential>) -> Seq<CredentialView> {
    s.map_values(|c: DelegationCredential| c@)
}

impl TrustPath {
    /// The number of delegations on the path.
    pub fn hops(&self) -> (r: usize)
        ensures
            r == self.credentials@.len(),
    {
        self.credentials.len()
    }
}

/// The trust graph.
#[derive(Debug, Clone, PartialEq, Eq)]
pub struct TrustGraph {
    nodes: Vec<(NodeId, DelegationNode)>,
    edges: Vec<DelegationCredential>,
}

/// The trust graph as a mathematical value.
#[verifier::ext_equal]
pub struct GraphView {
    /// The ids under which the nodes were added, in ascending order.
    pub ids: Seq<Seq<char>>,
    /// The nodes, each at the position of the id under which it was added.
    pub nodes: Seq<NodeView>,
    /// The delegations, in the order in which they were added.
    pub edges: Seq<CredentialView>,
}

/// The ids under which the nodes of a list were added.
pub open spec fn id_views(s: Seq<(NodeId, DelegationNode)>) -> Seq<Seq<char>> {
    s.map_values(|n: (NodeId, DelegationNode)| n.0@)
}

/// The nodes of a list as mathematical values.
pub open spec fn node_views(s: Seq<(NodeId, DelegationNode)>) -> Seq<NodeView> {
    s.map_values(|n: (NodeId, DelegationNode)| n.1@)
}

impl View for TrustGraph {
    type V = GraphView;

    closed spec fn view(&self) -> GraphView {
        GraphView {
            ids: id_views(self.nodes@),
            nodes: node_views(self.nodes@),
            edges: credential_views(self.edges@),
        }
    }
}

/// The first position of an id.
pub open spec fn node_position(ids: Seq<Seq<char>>, id: Seq<char>) -> Option<int>
    decreases ids.len(),
{
    if ids.len() == 0 {
        None
    } else {
        match node_position(ids.drop_last(), id) {
            Some(i) => Some(i),
            None => if ids.last() == id {
                Some(ids.len() - 1)
            } else {
                None
            },
        }
    }
}

/// The position before the first id that is not before a given one.
pub open spec fn insert_position(ids: Seq<Seq<char>>, id: Seq<char>) -> int
    decreases ids.len(),
{
    if ids.len() == 0 {
        0
    } else {
        let p = insert_position(ids.drop_last(), id);
        if p < ids.len() - 1 {
            p
        } else if text_lt(ids.last(), id) {
            ids.len() as int
        } else {
            ids.len() - 1
        }
    }
}

/// The ids of the roots, in order.
pub open spec fn root_ids(nodes: Seq<NodeView>) -> Seq<Seq<char>>
    decreases nodes.len(),
{
    if nodes.len() == 0 {
        Seq::empty()
    } else {
        let front = root_ids(nodes.drop_last());
        if nodes.last().kind is Root {
            front.push(nodes.last().id)
        } else {
            front
        }
    }
}

/// The id of the first node that has a key.
pub open spec fn owner_of(nodes: Seq<NodeView>, key_id: Seq<char>) -> Option<Seq<char>>
    decreases nodes.len(),
{
    if nodes.len() == 0 {
        None
    } else {
        match owner_of(nodes.drop_last(), key_id) {
            Some(id) => Some(id),
            None => if first_value(nodes.last().keys, key_id) is Some {
                Some(nodes.last().id)
            } else {
                None
            },
        }
    }
}

/// The key that the last registration under an id gives.
pub open spec fn registered_in(nodes: Seq<NodeView>, key_id: Seq<char>) -> Option<KeyView>
    decreases nodes.len(),
{
    if nodes.len() == 0 {
        None
    } else {
        match crate::scope::last_value(nodes.last().keys, key_id) {
            Some(k) => Some(k),
            None => registered_in(nodes.drop_last(), key_id),
        }
    }
}

/// The ids of the keys of a node under which some signature of a payload
/// verifies.
pub open spec fn signing_keys(
    signatures: Seq<SlotView>,
    keys: Seq<(Seq<char>, KeyView)>,
    domain: SigningDomain,
    payload: Seq<u8>,
) -> Set<Seq<char>>
    decreases signatures.len(),
{
    if signatures.len() == 0 {
        Set::empty()
    } else {
        let front = signing_keys(signatures.drop_last(), keys, domain, payload);
        let s = signatures.last();
        match first_value(keys, s.key_id) {
            Some(k) => if s.verifies(domain, payload, k) {
                front.insert(s.key_id)
            } else {
                front
            },
            None => front,
        }
    }
}

/// Whether a directory holds the registered keys of nodes, and nothing else.
pub open spec fn directory_agrees(directory: KeyDirectory, nodes: Seq<NodeView>) -> bool {
    forall|id: Seq<char>| #[trigger] directory.lookup(id) == registered_in(nodes, id)
}

/// A directory of the registered keys of a graph. Directories that agree with
/// the graph differ in nothing that a lookup shows.
pub open spec fn directory_of(graph: GraphView) -> KeyDirectory {
    choose|d: KeyDirectory| directory_agrees(d, graph.nodes)
}

impl GraphView {
    /// The node that was added under an id.
    pub open spec fn node(self, id: Seq<char>) -> Option<NodeView> {
        match node_position(self.ids, id) {
            Some(i) => Some(self.nodes[i]),
            None => None,
        }
    }

    /// The key of a node under an id.
    pub open spec fn key_of(self, node: Seq<char>, key_id: Seq<char>) -> Option<KeyView> {
        match self.node(node) {
            Some(n) => first_value(n.keys, key_id),
            None => None,
        }
    }

    /// Whether the signatures of a credential satisfy its parent: a group needs
    /// as many distinct keys as its threshold, any other node one.
    pub open spec fn credential_check(self, cred: CredentialView) -> Result<(), ErrorView> {
        match self.node(cred.parent) {
            None => Err(ErrorView::Unknown { kind: "node"@, id: cred.parent }),
            Some(parent) => {
                let keys = signing_keys(
                    cred.signatures,
                    parent.keys,
                    SigningDomain::Delegation,
                    cred.bytes(),
                );
                let enough = match parent.kind {
                    KindView::ThresholdGroup { threshold, .. } => keys.len() >= threshold,
                    _ => keys.len() > 0,
                };
                if enough {
                    Ok(())
                } else {
                    Err(
                        ErrorView::CredentialSignatureInvalid {
                            parent: cred.parent,
                            child: cred.child,
                        },
                    )
                }
            },
        }
    }
}

proof fn lemma_node_position_prefix(ids: Seq<Seq<char>>, n: int, id: Seq<char>)
    requires
        0 <= n <= ids.len(),
        node_position(ids.take(n), id) is Some,
    ensures
        node_position(ids, id) == node_position(ids.take(n), id),
    decreases ids.len() - n,
{
    if n == ids.len() {
        assert(ids.take(n) =~= ids);
    } else {
        assert(ids.take(n + 1).drop_last() =~= ids.take(n));
        lemma_node_position_prefix(ids, n + 1, id);
    }
}

/// The position of a node is within the list and holds its id.
pub proof fn lemma_node_position(ids: Seq<Seq<char>>, id: Seq<char>)
    ensures
        node_position(ids, id) matches Some(i) ==> 0 <= i < ids.len() && ids[i] == id,
        node_position(ids, id) is None ==> forall|i: int|
            0 <= i < ids.len() ==> (#[trigger] ids[i]) != id,
    decreases ids.len(),
{
    if ids.len() > 0 {
        lemma_node_position(ids.drop_last(), id);
        if node_position(ids, id) is None {
            assert forall|i: int| 0 <= i < ids.len() implies (#[trigger] ids[i]) != id by {
                if i < ids.len() - 1 {
                    assert(ids.drop_last()[i] != id);
                }
            }
        }
    }
}

pub(crate) proof fn lemma_insert_position(ids: Seq<Seq<char>>, id: Seq<char>)
    ensures
        0 <= insert_position(ids, id) <= ids.len(),
        forall|k: int|
            0 <= k < insert_position(ids, id) ==> text_lt((#[trigger] ids[k]), id),
        insert_position(ids, id) < ids.len() ==> !text_lt(
            ids[insert_position(ids, id)],
            id,
        ),
    decreases ids.len(),
{
    if ids.len() > 0 {
        lemma_insert_position(ids.drop_last(), id);
        let p = insert_position(ids.drop_last(), id);
        if p < ids.len() - 1 {
            assert(ids.drop_last()[p] == ids[p]);
        }
        assert forall|k: int| 0 <= k < insert_position(ids, id) implies text_lt(
            (#[trigger] ids[k]),
            id,
        ) by {
            if k < ids.len() - 1 {
                assert(ids.drop_last()[k] == ids[k]);
            }
        }
    }
}

proof fn lemma_insert_position_is(ids: Seq<Seq<char>>, id: Seq<char>, p: int)
    requires
        0 <= p <= ids.len(),
        forall|k: int| 0 <= k < p ==> text_lt((#[trigger] ids[k]), id),
        p < ids.len() ==> !text_lt(ids[p], id),
    ensures
        insert_position(ids, id) == p,
{
    lemma_insert_position(ids, id);
    let q = insert_position(ids, id);
    if q < p {
        assert(text_lt(ids[q], id));
    } else if p < q {
        assert(text_lt(ids[p], id));
    }
}

proof fn lemma_owner_prefix(nodes: Seq<NodeView>, n: int, key_id: Seq<char>)
    requires
        0 <= n <= nodes.len(),
        owner_of(nodes.take(n), key_id) is Some,
    ensures
        owner_of(nodes, key_id) == owner_of(nodes.take(n), key_id),
    decreases nodes.len() - n,
{
    if n == nodes.len() {
        assert(nodes.take(n) =~= nodes);
    } else {
        assert(nodes.take(n + 1).drop_last() =~= nodes.take(n));
        lemma_owner_prefix(nodes, n + 1, key_id);
    }
}

impl Default for TrustGraph {
    fn default() -> (r: TrustGraph)
        ensures
            r@ == (GraphView { ids: Seq::empty(), nodes: Seq::empty(), edges: Seq::empty() }),
    {
        TrustGraph::new()
    }
}

impl TrustGraph {
    /// The empty graph.
    pub fn new() -> (r: TrustGraph)
        ensures
            r@ == (GraphView { ids: Seq::empty(), nodes: Seq::empty(), edges: Seq::empty() }),
    {
        let r = TrustGraph { nodes: Vec::new(), edges: Vec::new() };
        assert(r@.ids =~= Seq::<Seq<char>>::empty());
        assert(r@.nodes =~= Seq::<NodeView>::empty());
        assert(r@.edges =~= Seq::<CredentialView>::empty());
        r
    }

    fn find(&self, id: &NodeId) -> (r: Option<usize>)
        ensures
            r is Some == node_position(self@.ids, id@) is Some,
            r matches Some(i) ==> i == node_position(self@.ids, id@)->0 && i < self.nodes@.len(),
    {
        let ghost all = self@.ids;
        let mut i: usize = 0;
        assert(all.take(0) =~= Seq::<Seq<char>>::empty());
        while i < self.nodes.len()
            invariant
                i <= self.nodes.len(),
                all == id_views(self.nodes@),
                node_position(all.take(i as int), id@) is None,
            decreases self.nodes.len() - i,
        {
            proof {
                assert(all.take(i + 1).drop_last() =~= all.take(i as int));
                assert(all.take(i + 1).last() == self.nodes@[i as int].0@);
            }
            if self.nodes[i].0.same(id) {
                proof {
                    lemma_node_position_prefix(all, i + 1, id@);
                }
                return Some(i);
            }
            i += 1;
        }
        assert(all.take(i as int) =~= all);
        None
    }

    /// Adds a node under its id; where a node was added under that id already,
    /// nothing changes.
    pub fn add_node(&mut self, node: DelegationNode)
        ensures
            final(self)@ == (if node_position(old(self)@.ids, node@.id) is Some {
                old(self)@
            } else {
                let p = insert_position(old(self)@.ids, node@.id);
                GraphView {
                    ids: old(self)@.ids.insert(p, node@.id),
                    nodes: old(self)@.nodes.insert(p, node@),
                    ..old(self)@
                }
            }),
            forall|id: Seq<char>| #[trigger]
                final(self)@.node(id) == (if id == node@.id && old(self)@.node(id) is None {
                    Some(node@)
                } else {
                    old(self)@.node(id)
                }),
    {
        if self.find(&node.id).is_some() {
            return;
        }
        let mut i: usize = 0;
        while i < self.nodes.len() && text_before(self.nodes[i].0.as_str(), node.id.as_str())
            invariant
                *self == *old(self),
                i <= self.nodes.len(),
                forall|k: int| 0 <= k < i ==> text_lt(#[trigger] self@.ids[k], node@.id),
            decreases self.nodes.len() - i,
        {
            assert(self@.ids[i as int] == self.nodes@[i as int].0@);
            i += 1;
        }
        proof {
            if i < self.nodes@.len() {
                assert(self@.ids[i as int] == self.nodes@[i as int].0@);
            }
            lemma_insert_position_is(self@.ids, node@.id, i as int);
        }
        let id = node.id.clone();
        self.nodes.insert(i, (id, node));
        assert(self@.ids =~= old(self)@.ids.insert(i as int, node@.id));
        assert(self@.nodes =~= old(self)@.nodes.insert(i as int, node@));
        assert(self@.edges =~= old(self)@.edges);
        proof {
            assert forall|id: Seq<char>| #[trigger] self@.node(id) == (if id == node@.id && old(self)@.node(id) is None {
                Some(node@)
            } else {
                old(self)@.node(id)
            }) by {
                adding_a_node_keeps_the_others(old(self)@, node@, i as int, id);
            }
        }
    }

    /// The node that was added under an id.
    pub fn node(&self, id: &NodeId) -> (r: Option<&DelegationNode>)
        ensures
            r is Some == self@.node(id@) is Some,
            r matches Some(n) ==> Some(n@) == self@.node(id@),
    {
        match self.find(id) {
            None => None,
            Some(i) => {
                assert(self@.nodes[i as int] == self.nodes@[i as int].1@);
                Some(&self.nodes[i].1)
            },
        }
    }

    /// The node that was added under an id, to be changed in place. Whatever
    /// becomes of it, it stays under that id.
    pub fn node_mut(&mut self, id: &NodeId) -> (r: Option<&mut DelegationNode>)
        ensures
            match node_position(old(self)@.ids, id@) {
                None => r is None && final(self)@ == old(self)@,
                Some(k) => r matches Some(n) && Some(n@) == old(self)@.node(id@) && final(self)@
                    == (GraphView { nodes: old(self)@.nodes.update(k, final(n)@), ..old(self)@ }),
            },
    {
        match self.find(id) {
            None => None,
            Some(i) => {
                let entry = &mut self.nodes[i];
                Some(&mut entry.1)
            },
        }
    }

    /// All nodes, in ascending order of the ids under which they were added.
    pub fn nodes(&self) -> (r: Vec<&DelegationNode>)
        ensures
            r@.map_values(|n: &DelegationNode| n@) == self@.nodes,
    {
        let mut out: Vec<&DelegationNode> = Vec::new();
        let mut i: usize = 0;
        while i < self.nodes.len()
            invariant
                i <= self.nodes.len(),
                out@.map_values(|n: &DelegationNode| n@) =~= self@.nodes.take(i as int),
            decreases self.nodes.len() - i,
        {
            let ghost before = out@.map_values(|n: &DelegationNode| n@);
            out.push(&self.nodes[i].1);
            assert(out@.map_values(|n: &DelegationNode| n@) =~= before.push(
                self.nodes@[i as int].1@,
            ));
            i += 1;
        }
        out
    }

    /// The number of nodes.
    pub fn node_count(&self) -> (r: usize)
        ensures
            r == self@.nodes.len(),
    {
        self.nodes.len()
    }

    /// The number of delegations.
    pub fn edge_count(&self) -> (r: usize)
        ensures
            r == self@.edges.len(),
    {
        self.edges.len()
    }

    /// All delegations.
    pub fn edges(&self) -> (r: &[DelegationCredential])
        ensures
            credential_views(r@) == self@.edges,
    {
        self.edges.as_slice()
    }

    /// Keeps only the first `n` delegations.
    pub fn truncate_edges_for_test(&mut self, n: usize)
        ensures
            final(self)@ == (GraphView {
                edges: if n <= old(self)@.edges.len() {
                    old(self)@.edges.take(n as int)
                } else {
                    old(self)@.edges
                },
                ..old(self)@
            }),
    {
        self.edges.truncate(n);
        assert(self@.nodes =~= old(self)@.nodes);
        assert(n <= old(self)@.edges.len() ==> self@.edges =~= old(self)@.edges.take(n as int));
        assert(n > old(self)@.edges.len() ==> self@.edges =~= old(self)@.edges);
    }

    /// The ids of the roots, in the order of the nodes.
    pub fn roots(&self) -> (r: Vec<NodeId>)
        ensures
            r@.map_values(|n: NodeId| n@) == root_ids(self@.nodes),
    {
        let ghost all = self@.nodes;
        let mut out: Vec<NodeId> = Vec::new();
        let mut i: usize = 0;
        assert(all.take(0) =~= Seq::<NodeView>::empty());
        assert(out@.map_values(|n: NodeId| n@) =~= Seq::<Seq<char>>::empty());
        while i < self.nodes.len()
            invariant
                i <= self.nodes.len(),
                all == node_views(self.nodes@),
                out@.map_values(|n: NodeId| n@) == root_ids(all.take(i as int)),
            decreases self.nodes.len() - i,
        {
            proof {
                assert(all.take(i + 1).drop_last() =~= all.take(i as int));
                assert(all.take(i + 1).last() == self.nodes@[i as int].1@);
            }
            if self.nodes[i].1.kind.is_root() {
                let ghost before = out@.map_values(|n: NodeId| n@);
                out.push(self.nodes[i].1.id.clone());
                assert(out@.map_values(|n: NodeId| n@) =~= before.push(
                    self.nodes@[i as int].1.id@,
                ));
            }
            i += 1;
        }
        assert(all.take(i as int) =~= all);
        out
    }

    /// The id of the node that owns a key.
    pub fn node_for_key(&self, key_id: &KeyId) -> (r: Option<NodeId>)
        ensures
            r is Some == owner_of(self@.nodes, key_id@) is Some,
            r matches Some(n) ==> Some(n@) == owner_of(self@.nodes, key_id@),
    {
        let ghost all = self@.nodes;
        let mut i: usize = 0;
        assert(all.take(0) =~= Seq::<NodeView>::empty());
        while i < self.nodes.len()
            invariant
                i <= self.nodes.len(),
                all == node_views(self.nodes@),
                owner_of(all.take(i as int), key_id@) is None,
            decreases self.nodes.len() - i,
        {
            proof {
                assert(all.take(i + 1).drop_last() =~= all.take(i as int));
                assert(all.take(i + 1).last() == self.nodes@[i as int].1@);
            }
            if self.nodes[i].1.key(key_id).is_some() {
                proof {
                    lemma_owner_prefix(all, i + 1, key_id@);
                }
                return Some(self.nodes[i].1.id.clone());
            }
            i += 1;
        }
        assert(all.take(i as int) =~= all);
        None
    }

    /// A directory of every key registered in the graph.
    pub fn key_directory(&self) -> (r: KeyDirectory)
        ensures
            directory_agrees(r, self@.nodes),
            directory_agrees(directory_of(self@), self@.nodes),
    {
        let mut dir = KeyDirectory::new();
        let ghost all = self@.nodes;
        let mut i: usize = 0;
        assert(all.take(0) =~= Seq::<NodeView>::empty());
        while i < self.nodes.len()
            invariant
                i <= self.nodes.len(),
                all == node_views(self.nodes@),
                forall|id: Seq<char>| #[trigger]
                    dir.lookup(id) == registered_in(all.take(i as int), id),
            decreases self.nodes.len() - i,
        {
            let node = &self.nodes[i].1;
            let ghost keys = node@.keys;
            let ghost before = dir;
            let mut j: usize = 0;
            assert(keys.take(0) =~= Seq::<(Seq<char>, KeyView)>::empty());
            while j < node.keys.len()
                invariant
                    j <= node.keys.len(),
                    keys == registered_views(node.keys@),
                    forall|id: Seq<char>| #[trigger]
                        dir.lookup(id) == (match crate::scope::last_value(
                            keys.take(j as int),
                            id,
                        ) {
                            Some(k) => Some(k),
                            None => before.lookup(id),
                        }),
                decreases node.keys.len() - j,
            {
                proof {
                    assert(keys.take(j + 1).drop_last() =~= keys.take(j as int));
                    assert(keys.take(j + 1).last() == node.keys@[j as int]@);
                }
                dir.put(&node.keys[j].key_id, &node.keys[j].public);
                j += 1;
            }
            proof {
                assert(keys.take(j as int) =~= keys);
                assert(all.take(i + 1).drop_last() =~= all.take(i as int));
                assert(all.take(i + 1).last() == self.nodes@[i as int].1@);
            }
            i += 1;
        }
        assert(all.take(i as int) =~= all);
        assert(directory_agrees(dir, self@.nodes));
        dir
    }

    /// Checks the signatures of a credential against its parent.
    pub fn verify_credential(&self, cred: &DelegationCredential) -> (r: Result<(), SignatifError>)
        ensures
            crate::outcome(r) == self@.credential_check(cred@),
    {
        let parent = match self.node(&cred.parent) {
            None => {
                return Err(SignatifError::Unknown { kind: "node", id: cred.parent.to_string() });
            },
            Some(p) => p,
        };
        let payload = cred.canonical_bytes();
        let mut verified = StringSet::new();
        let ghost all = cred@.signatures;
        let ghost keys = parent@.keys;
        let mut i: usize = 0;
        assert(all.take(0) =~= Seq::<SlotView>::empty());
        while i < cred.signatures.len()
            invariant
                i <= cred.signatures.len(),
                all == slot_views(cred.signatures@),
                keys == parent@.keys,
                payload@ == cred@.bytes(),
                verified.members() == signing_keys(
                    all.take(i as int),
                    keys,
                    SigningDomain::Delegation,
                    payload@,
                ),
            decreases cred.signatures.len() - i,
        {
            proof {
                assert(all.take(i + 1).drop_last() =~= all.take(i as int));
                assert(all.take(i + 1).last() == cred.signatures@[i as int]@);
            }
            let slot = &cred.signatures[i];
            if let Some(public) = parent.key(&slot.key_id) {
                if slot.verify(SigningDomain::Delegation, payload.as_slice(), public).is_ok() {
                    verified.insert(slot.key_id.as_str());
                }
            }
            i += 1;
        }
        assert(all.take(i as int) =~= all);
        let n = verified.len();
        let enough = match &parent.kind {
            NodeKind::ThresholdGroup { threshold, .. } => n >= *threshold,
            _ => n > 0,
        };
        if enough {
            Ok(())
        } else {
            Err(
                SignatifError::CredentialSignatureInvalid {
                    parent: cred.parent.to_string(),
                    child: cred.child.to_string(),
                },
            )
        }
    }
}

/// Every node of a graph stands under one id.
pub proof fn nodes_stand_under_ids(graph: TrustGraph)
    ensures
        graph@.ids.len() == graph@.nodes.len(),
{
}

/// Adding a node gives that node under its id, and leaves what is found under
/// any other.
pub proof fn adding_a_node_keeps_the_others(
    graph: GraphView,
    node: NodeView,
    position: int,
    id: Seq<char>,
)
    requires
        graph.ids.len() == graph.nodes.len(),
        graph.node(node.id) is None,
        0 <= position <= graph.nodes.len(),
    ensures
        (GraphView {
            ids: graph.ids.insert(position, node.id),
            nodes: graph.nodes.insert(position, node),
            ..graph
        }).node(id) == (if id == node.id {
            Some(node)
        } else {
            graph.node(id)
        }),
    decreases graph.nodes.len(),
{
    let ids = graph.ids;
    let more = ids.insert(position, node.id);
    lemma_node_position(ids, id);
    if position == ids.len() {
        assert(more.drop_last() =~= ids);
    } else {
        let short = GraphView {
            ids: ids.drop_last(),
            nodes: graph.nodes.drop_last(),
            ..graph
        };
        assert(more.drop_last() =~= ids.drop_last().insert(position, node.id));
        assert(more.last() == ids.last());
        lemma_node_position(ids.drop_last(), id);
        lemma_node_position(more.drop_last(), id);
        lemma_node_position(ids.drop_last(), node.id);
        adding_a_node_keeps_the_others(short, node, position, id);
    }
}

/// A node that is changed in place stays under the id under which it was added,
/// also where its own id is changed, and no other node changes.
pub proof fn changed_nodes_stay_in_place(
    graph: GraphView,
    id: Seq<char>,
    node: NodeView,
    other: Seq<char>,
)
    requires
        graph.ids.len() == graph.nodes.len(),
        graph.node(id) is Some,
    ensures
        ({
            let k = node_position(graph.ids, id)->0;
            (GraphView { nodes: graph.nodes.update(k, node), ..graph }).node(other) == (if other
                == id {
                Some(node)
            } else {
                graph.node(other)
            })
        }),
{
    lemma_node_position(graph.ids, id);
    lemma_node_position(graph.ids, other);
}

/// A text of printing ASCII characters without capitals is a node id as it
/// stands.
pub proof fn plain_texts_are_node_ids(raw: Seq<char>)
    requires
        0 < raw.len() <= 128,
        forall|i: int| 0 <= i < raw.len() ==> is_plain(#[trigger] raw[i]),
    ensures
        node_id_of(raw) == Some(raw),
{
    assert(is_plain(raw[0]));
    assert(is_plain(raw[raw.len() - 1]));
    assert(trimmed(raw) == raw);
    assert(lowered(raw) =~= raw);
}

/// Whether a character is a printing ASCII character and no capital.
pub open spec fn is_plain(c: char) -> bool {
    crate::text::is_graphic(c) && !('A' <= c && c <= 'Z')
}

/// A credential that a key of the parent signed satisfies the parent, unless
/// the parent is a group, which needs as many keys as its threshold.
pub proof fn minted_credentials_verify(cred: CredentialView, key: KeyPair, graph: GraphView)
    requires
        cred.signatures.len() == 1,
        issued(key, SigningDomain::Delegation, cred.bytes(), cred.signatures[0]),
        graph.key_of(cred.parent, key_id_of(key.spec_public())) == Some(key.spec_public()),
        graph.node(cred.parent)->0.kind !is ThresholdGroup,
    ensures
        graph.credential_check(cred) is Ok,
{
    let keys = graph.node(cred.parent)->0.keys;
    let all = signing_keys(cred.signatures, keys, SigningDomain::Delegation, cred.bytes());
    lemma_signing_keys_finite(cred.signatures, keys, SigningDomain::Delegation, cred.bytes());
    assert(all.contains(cred.signatures[0].key_id));
}

proof fn lemma_signing_keys_finite(
    signatures: Seq<SlotView>,
    keys: Seq<(Seq<char>, KeyView)>,
    domain: SigningDomain,
    payload: Seq<u8>,
)
    ensures
        signing_keys(signatures, keys, domain, payload).finite(),
    decreases signatures.len(),
{
    if signatures.len() > 0 {
        lemma_signing_keys_finite(signatures.drop_last(), keys, domain, payload);
    }
}

/// The attestation of a witness holds wherever the witness's key is the one
/// that signed.
pub proof fn minted_attestations_hold(
    attestation: WitnessAttestation,
    key: KeyPair,
    node: Seq<char>,
    witnesses: TextMap<PublicKey>,
)
    requires
        issued(
            key,
            SigningDomain::MasterListWitness,
            witness_bytes(node, attestation.at),
            attestation.slot@,
        ),
        witnesses.at(attestation.witness@) matches Some(k) && k@ == key.spec_public(),
    ensures
        attestation.holds(node, witnesses),
{
}

} // verus!
