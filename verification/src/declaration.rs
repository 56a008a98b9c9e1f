//! Interop declarations: what a scheme is willing to exchange, with whom, and
//! how. A later version supersedes an earlier one, and nothing moves without
//! willingness.

use vstd::bytes::{spec_u64_to_le_bytes, u64_to_le_bytes};
use vstd::prelude::*;

use crate::canon::{field, option_text, text_field, text_fields, CanonicalWriter};
use crate::digest::{sha256, sha256_of};
use crate::graph::{GraphView, TrustGraph};
use crate::hierarchy::{option_str, text_or_nothing};
use crate::keyring::KeyPair;
use crate::sets::{join, joined_texts, sort_texts, sorted_texts, texts};
use crate::sign::{signing_error, SignatureSlot, SigningDomain};
use crate::signer::{check_signer, issued, registered, signer_check};
use crate::text::{cat3, cat5, cat7, same_text, text_before, text_lt};
use crate::{ErrorView, SignatifError};

verus! {

/// How far two schemes are harmonized.
#[derive(Debug, Clone, Copy, PartialEq, Eq, Structural)]
pub enum HarmonizationLevel {
    /// Not at all.
    L0,
    /// Documents are recognized.
    L1,
    /// The protocol is shared.
    L2,
    /// Structures are mapped.
    L3,
    /// Structures are shared.
    L4,
    /// The whole core is shared.
    L5,
}

impl HarmonizationLevel {
    /// The number of the level.
    pub open spec fn spec_ordinal(self) -> u8 {
        match self {
            HarmonizationLevel::L0 => 0,
            HarmonizationLevel::L1 => 1,
            HarmonizationLevel::L2 => 2,
            HarmonizationLevel::L3 => 3,
            HarmonizationLevel::L4 => 4,
            HarmonizationLevel::L5 => 5,
        }
    }

    /// The number of the level.
    pub fn ordinal(self) -> (r: u8)
        ensures
            r == self.spec_ordinal(),
    {
        match self {
            HarmonizationLevel::L0 => 0,
            HarmonizationLevel::L1 => 1,
            HarmonizationLevel::L2 => 2,
            HarmonizationLevel::L3 => 3,
            HarmonizationLevel::L4 => 4,
            HarmonizationLevel::L5 => 5,
        }
    }
}

/// How a counterpart's objects are recognized.
#[derive(Debug, Clone, Copy, PartialEq, Eq, Structural)]
pub enum RecognitionMode {
    /// One side pins the other's anchors.
    UnilateralPinning,
    /// Both sides exchange anchors.
    BilateralAnchors,
    /// Through a list of members.
    ClubList,
    /// Through the mesh of master lists.
    MasterListMesh,
}

/// The token of a recognition mode.
pub open spec fn mode_token(mode: RecognitionMode) -> Seq<char> {
    match mode {
        RecognitionMode::UnilateralPinning => "unilateral-pinning"@,
        RecognitionMode::BilateralAnchors => "bilateral-anchors"@,
        RecognitionMode::ClubList => "club-list"@,
        RecognitionMode::MasterListMesh => "master-list-mesh"@,
    }
}

/// The token of a recognition mode.
pub fn recognition_token(mode: RecognitionMode) -> (r: &'static str)
    ensures
        r@ == mode_token(mode),
{
    match mode {
        RecognitionMode::UnilateralPinning => "unilateral-pinning",
        RecognitionMode::BilateralAnchors => "bilateral-anchors",
        RecognitionMode::ClubList => "club-list",
        RecognitionMode::MasterListMesh => "master-list-mesh",
    }
}

/// How evidence travels.
#[derive(Debug, Clone, Copy, PartialEq, Eq, Structural)]
pub enum TransportMode {
    /// By the connected protocol.
    Protocol,
    /// As a document.
    Document,
    /// Through a hub.
    Hub,
}

/// The token of a transport mode.
pub open spec fn way_token(mode: TransportMode) -> Seq<char> {
    match mode {
        TransportMode::Protocol => "protocol"@,
        TransportMode::Document => "document"@,
        TransportMode::Hub => "hub"@,
    }
}

/// The token of a transport mode.
pub fn transport_token(mode: TransportMode) -> (r: &'static str)
    ensures
        r@ == way_token(mode),
{
    match mode {
        TransportMode::Protocol => "protocol",
        TransportMode::Document => "document",
        TransportMode::Hub => "hub",
    }
}

/// The name of a transport mode.
pub open spec fn way_name(mode: TransportMode) -> Seq<char> {
    match mode {
        TransportMode::Protocol => "Protocol"@,
        TransportMode::Document => "Document"@,
        TransportMode::Hub => "Hub"@,
    }
}

fn transport_name(mode: TransportMode) -> (r: &'static str)
    ensures
        r@ == way_name(mode),
{
    match mode {
        TransportMode::Protocol => "Protocol",
        TransportMode::Document => "Document",
        TransportMode::Hub => "Hub",
    }
}

/// What a scheme is willing to do for one data class.
#[derive(Debug, Clone, PartialEq, Eq)]
pub struct ClassPosture {
    /// The data class; `*` stands for all others.
    pub data_class: String,
    /// How far it is harmonized.
    pub level: HarmonizationLevel,
    /// How the counterpart's objects are recognized.
    pub recognition: RecognitionMode,
    /// How evidence may travel.
    pub transports: Vec<TransportMode>,
    /// Where to escalate to.
    pub escalation: Option<String>,
    /// What is expected in return.
    pub reciprocity: Option<String>,
}

/// A posture as a mathematical value.
#[verifier::ext_equal]
pub struct PostureView {
    /// See [`ClassPosture::data_class`].
    pub data_class: Seq<char>,
    /// See [`ClassPosture::level`].
    pub level: HarmonizationLevel,
    /// See [`ClassPosture::recognition`].
    pub recognition: RecognitionMode,
    /// See [`ClassPosture::transports`].
    pub transports: Seq<TransportMode>,
    /// See [`ClassPosture::escalation`].
    pub escalation: Option<Seq<char>>,
    /// See [`ClassPosture::reciprocity`].
    pub reciprocity: Option<Seq<char>>,
}

impl View for ClassPosture {
    type V = PostureView;

    open spec fn view(&self) -> PostureView {
        PostureView {
            data_class: self.data_class@,
            level: self.level,
            recognition: self.recognition,
            transports: self.transports@,
            escalation: option_text(self.escalation),
            reciprocity: option_text(self.reciprocity),
        }
    }
}

/// The postures of a list as mathematical values.
pub open spec fn posture_views(s: Seq<ClassPosture>) -> Seq<PostureView> {
    s.map_values(|p: ClassPosture| p@)
}

/// The tokens of transport modes.
pub open spec fn way_tokens(s: Seq<TransportMode>) -> Seq<Seq<char>> {
    s.map_values(|m: TransportMode| way_token(m))
}

/// The names of transport modes in brackets, as a list prints.
pub open spec fn way_list(s: Seq<TransportMode>) -> Seq<char> {
    "["@ + joined_texts(s.map_values(|m: TransportMode| way_name(m)), ", "@) + "]"@
}

impl PostureView {
    /// The canonical bytes: the transport modes stand in ascending order of
    /// their tokens.
    pub open spec fn bytes(self) -> Seq<u8> {
        text_field(self.data_class) + field(seq![self.level.spec_ordinal()]) + text_field(
            mode_token(self.recognition),
        ) + text_fields(sorted_texts(way_tokens(self.transports))) + text_field(
            text_or_nothing(self.escalation),
        ) + text_field(text_or_nothing(self.reciprocity))
    }
}

/// Where a posture goes among others in ascending order of their classes:
/// behind the last one whose class is not above its own.
pub open spec fn posture_place(t: Seq<PostureView>, class: Seq<char>) -> int
    decreases t.len(),
{
    if t.len() > 0 && text_lt(class, t.last().data_class) {
        posture_place(t.drop_last(), class)
    } else {
        t.len() as int
    }
}

/// Postures in ascending order of their classes; postures for the same class
/// keep their order.
pub open spec fn sorted_postures(s: Seq<PostureView>) -> Seq<PostureView>
    decreases s.len(),
{
    if s.len() == 0 {
        s
    } else {
        let t = sorted_postures(s.drop_last());
        t.insert(posture_place(t, s.last().data_class), s.last())
    }
}

/// The canonical bytes of postures, one after the other.
pub open spec fn posture_bytes(s: Seq<PostureView>) -> Seq<u8>
    decreases s.len(),
{
    if s.len() == 0 {
        Seq::empty()
    } else {
        posture_bytes(s.drop_last()) + s.last().bytes()
    }
}

/// What a declarer signs. The order of the postures does not matter.
pub open spec fn declaration_bytes(
    declarer: Seq<char>,
    counterpart: Seq<char>,
    version: u64,
    postures: Seq<PostureView>,
    valid_from: Seq<char>,
    valid_to: Option<Seq<char>>,
) -> Seq<u8> {
    text_field(declarer) + text_field(counterpart) + field(spec_u64_to_le_bytes(version))
        + posture_bytes(sorted_postures(postures)) + text_field(valid_from) + text_field(
        text_or_nothing(valid_to),
    )
}

/// A scheme's signed declaration.
#[derive(Debug, Clone, PartialEq, Eq)]
pub struct InteropDeclaration {
    /// The scheme's authority.
    pub declarer: String,
    /// The counterpart; `*` stands for all others.
    pub counterpart: String,
    /// The version.
    pub version: u64,
    /// The postures by data class.
    pub postures: Vec<ClassPosture>,
    /// The start of the validity.
    pub valid_from: String,
    /// Its end.
    pub valid_to: Option<String>,
    /// The declarer's signature.
    pub signature: SignatureSlot,
}

/// The positions of postures in ascending order of their classes.
fn posture_order(postures: &[ClassPosture]) -> (r: Vec<usize>)
    ensures
        r@.len() == postures@.len(),
        forall|k: int| 0 <= k < r@.len() ==> (#[trigger] r@[k]) < postures@.len(),
        r@.map_values(|k: usize| postures@[k as int]@) == sorted_postures(
            posture_views(postures@),
        ),
{
    let ghost all = posture_views(postures@);
    let mut order: Vec<usize> = Vec::new();
    let mut i: usize = 0;
    assert(all.take(0) =~= Seq::<PostureView>::empty());
    assert(order@.map_values(|k: usize| postures@[k as int]@) =~= Seq::<PostureView>::empty());
    while i < postures.len()
        invariant
            i <= postures.len(),
            all == posture_views(postures@),
            order@.len() == i,
            forall|k: int| 0 <= k < order@.len() ==> (#[trigger] order@[k]) < postures@.len(),
            order@.map_values(|k: usize| postures@[k as int]@) == sorted_postures(
                all.take(i as int),
            ),
        decreases postures.len() - i,
    {
        let ghost t = order@.map_values(|k: usize| postures@[k as int]@);
        let ghost class = postures@[i as int].data_class@;
        proof {
            assert(all.take(i + 1).drop_last() =~= all.take(i as int));
            assert(all.take(i + 1).last() == postures@[i as int]@);
            assert(t.take(t.len() as int) =~= t);
        }
        let mut p: usize = order.len();
        while p > 0 && text_before(
            postures[i].data_class.as_str(),
            postures[order[p - 1]].data_class.as_str(),
        )
            invariant
                p <= order.len(),
                i < postures.len(),
                order@.len() == i,
                t == order@.map_values(|k: usize| postures@[k as int]@),
                class == postures@[i as int].data_class@,
                forall|k: int| 0 <= k < order@.len() ==> (#[trigger] order@[k]) < postures@.len(),
                posture_place(t, class) == posture_place(t.take(p as int), class),
            decreases p,
        {
            proof {
                assert(t.take(p as int).last() == postures@[order@[p - 1] as int]@);
                assert(t.take(p as int).drop_last() =~= t.take(p - 1));
            }
            p -= 1;
        }
        proof {
            if p > 0 {
                assert(t.take(p as int).last() == postures@[order@[p - 1] as int]@);
            }
            assert(posture_place(t, class) == p);
        }
        order.insert(p, i);
        assert(order@.map_values(|k: usize| postures@[k as int]@) =~= t.insert(
            p as int,
            postures@[i as int]@,
        ));
        i += 1;
    }
    assert(all.take(i as int) =~= all);
    order
}

fn write_posture(p: &ClassPosture, w: &mut CanonicalWriter)
    ensures
        final(w)@ == old(w)@ + p@.bytes(),
{
    w.write_str(p.data_class.as_str());
    let level: [u8; 1] = [p.level.ordinal()];
    assert(level@ =~= seq![p.level.spec_ordinal()]);
    w.write_bytes(level.as_slice());
    w.write_str(recognition_token(p.recognition));
    let mut tokens: Vec<String> = Vec::new();
    let mut i: usize = 0;
    while i < p.transports.len()
        invariant
            i <= p.transports.len(),
            texts(tokens@) =~= way_tokens(p.transports@).take(i as int),
        decreases p.transports.len() - i,
    {
        let ghost was = texts(tokens@);
        let t = transport_token(p.transports[i]).to_owned();
        tokens.push(t);
        assert(texts(tokens@) =~= was.push(way_token(p.transports@[i as int])));
        i += 1;
    }
    assert(texts(tokens@) =~= way_tokens(p.transports@));
    let sorted = sort_texts(&tokens);
    w.write_texts(&sorted);
    write_or_nothing(&p.escalation, w);
    write_or_nothing(&p.reciprocity, w);
    assert(w@ =~= old(w)@ + p@.bytes());
}

fn write_or_nothing(s: &Option<String>, w: &mut CanonicalWriter)
    ensures
        final(w)@ == old(w)@ + text_field(text_or_nothing(option_text(*s))),
{
    match s {
        Some(t) => w.write_str(t.as_str()),
        None => w.write_str(""),
    }
}

impl InteropDeclaration {
    /// What the declarer signs.
    pub open spec fn bytes(self) -> Seq<u8> {
        declaration_bytes(
            self.declarer@,
            self.counterpart@,
            self.version,
            posture_views(self.postures@),
            self.valid_from@,
            option_text(self.valid_to),
        )
    }

    /// What checking the signature gives.
    pub open spec fn check(self, graph: GraphView) -> Result<Seq<char>, ErrorView> {
        signer_check(
            graph,
            self.declarer@,
            "declaration declarer: "@,
            "declaration declarer `"@ + self.declarer@ + "` has no such key"@,
            self.signature@,
            SigningDomain::InteropDeclaration,
            self.bytes(),
        )
    }

    fn canonical_bytes_for(
        declarer: &str,
        counterpart: &str,
        version: u64,
        postures: &[ClassPosture],
        valid_from: &str,
        valid_to: Option<&str>,
    ) -> (r: Vec<u8>)
        ensures
            r@ == declaration_bytes(
                declarer@,
                counterpart@,
                version,
                posture_views(postures@),
                valid_from@,
                option_str(valid_to),
            ),
    {
        let order = posture_order(postures);
        let ghost sorted = sorted_postures(posture_views(postures@));
        let mut w = CanonicalWriter::new();
        w.write_str(declarer);
        w.write_str(counterpart);
        let v = u64_to_le_bytes(version);
        w.write_bytes(v.as_slice());
        let ghost head = w@;
        let mut i: usize = 0;
        assert(sorted.take(0) =~= Seq::<PostureView>::empty());
        while i < order.len()
            invariant
                i <= order.len(),
                order@.map_values(|k: usize| postures@[k as int]@) == sorted,
                forall|k: int| 0 <= k < order@.len() ==> (#[trigger] order@[k]) < postures@.len(),
                w@ =~= head + posture_bytes(sorted.take(i as int)),
            decreases order.len() - i,
        {
            proof {
                assert(sorted.take(i + 1).drop_last() =~= sorted.take(i as int));
                assert(sorted.take(i + 1).last() == postures@[order@[i as int] as int]@);
            }
            write_posture(&postures[order[i]], &mut w);
            i += 1;
        }
        assert(sorted.take(i as int) =~= sorted);
        w.write_str(valid_from);
        match valid_to {
            Some(t) => w.write_str(t),
            None => w.write_str(""),
        }
        assert(w@ =~= declaration_bytes(
            declarer@,
            counterpart@,
            version,
            posture_views(postures@),
            valid_from@,
            option_str(valid_to),
        ));
        w.into_bytes()
    }

    /// The canonical bytes.
    pub fn canonical_bytes(&self) -> (r: Vec<u8>)
        ensures
            r@ == self.bytes(),
    {
        let until: Option<&str> = match &self.valid_to {
            Some(t) => Some(t.as_str()),
            None => None,
        };
        InteropDeclaration::canonical_bytes_for(
            self.declarer.as_str(),
            self.counterpart.as_str(),
            self.version,
            self.postures.as_slice(),
            self.valid_from.as_str(),
            until,
        )
    }

    /// The digest of the canonical bytes.
    pub fn digest(&self) -> (r: [u8; 32])
        ensures
            r@ == sha256_of(self.bytes()),
    {
        let bytes = self.canonical_bytes();
        sha256(bytes.as_slice()).0
    }

    /// The declarer signs a declaration.
    pub fn issue(
        declarer: &str,
        counterpart: &str,
        version: u64,
        postures: Vec<ClassPosture>,
        valid_from: &str,
        valid_to: Option<&str>,
        key: &KeyPair,
    ) -> (r: Result<InteropDeclaration, SignatifError>)
        ensures
            r is Ok == key.slot(
                SigningDomain::InteropDeclaration,
                declaration_bytes(
                    declarer@,
                    counterpart@,
                    version,
                    posture_views(postures@),
                    valid_from@,
                    option_str(valid_to),
                ),
            ) is Some,
            r matches Ok(d) ==> d.declarer@ == declarer@ && d.counterpart@ == counterpart@
                && d.version == version && d.postures == postures && d.valid_from@ == valid_from@
                && option_text(d.valid_to) == option_str(valid_to) && issued(
                *key,
                SigningDomain::InteropDeclaration,
                d.bytes(),
                d.signature@,
            ),
            r matches Err(e) ==> e@ == signing_error(),
    {
        let bytes = InteropDeclaration::canonical_bytes_for(
            declarer,
            counterpart,
            version,
            postures.as_slice(),
            valid_from,
            valid_to,
        );
        match SignatureSlot::sign(key, SigningDomain::InteropDeclaration, bytes.as_slice()) {
            Err(e) => Err(e),
            Ok(signature) => Ok(
                InteropDeclaration {
                    declarer: declarer.to_owned(),
                    counterpart: counterpart.to_owned(),
                    version,
                    postures,
                    valid_from: valid_from.to_owned(),
                    valid_to: match valid_to {
                        Some(t) => Some(t.to_owned()),
                        None => None,
                    },
                    signature,
                },
            ),
        }
    }

    /// Checks the signature under the declarer's registered key.
    pub fn verify(&self, graph: &TrustGraph) -> (r: Result<(), SignatifError>)
        ensures
            match self.check(graph@) {
                Ok(_) => r is Ok,
                Err(f) => r matches Err(e) && e@ == f,
            },
    {
        let missing = cat3("declaration declarer `", self.declarer.as_str(), "` has no such key");
        let bytes = self.canonical_bytes();
        match check_signer(
            graph,
            self.declarer.as_str(),
            "declaration declarer: ",
            missing.as_str(),
            &self.signature,
            SigningDomain::InteropDeclaration,
            bytes.as_slice(),
        ) {
            Err(e) => Err(e),
            Ok(_) => Ok(()),
        }
    }

    fn find_posture(&self, data_class: &str) -> (r: Option<usize>)
        ensures
            match first_posture(posture_views(self.postures@), data_class@) {
                None => r is None,
                Some(k) => r matches Some(i) && i == k && i < self.postures@.len(),
            },
    {
        let ghost all = posture_views(self.postures@);
        let mut i: usize = 0;
        assert(all.take(0) =~= Seq::<PostureView>::empty());
        while i < self.postures.len()
            invariant
                i <= self.postures.len(),
                all == posture_views(self.postures@),
                first_posture(all.take(i as int), data_class@) is None,
            decreases self.postures.len() - i,
        {
            proof {
                assert(all.take(i + 1).drop_last() =~= all.take(i as int));
                assert(all.take(i + 1).last() == self.postures@[i as int]@);
            }
            if same_text(self.postures[i].data_class.as_str(), data_class) {
                proof {
                    lemma_first_posture(all, data_class@, i + 1);
                }
                return Some(i);
            }
            i += 1;
        }
        assert(all.take(i as int) =~= all);
        None
    }

    /// The posture for a data class: the one for it, else the one for all
    /// others.
    pub fn posture_for(&self, data_class: &str) -> (r: Option<&ClassPosture>)
        ensures
            match posture_at(posture_views(self.postures@), data_class@) {
                None => r is None,
                Some(k) => r matches Some(p) && 0 <= k < self.postures@.len() && *p
                    == self.postures@[k],
            },
    {
        match self.find_posture(data_class) {
            Some(i) => Some(&self.postures[i]),
            None => match self.find_posture("*") {
                Some(i) => Some(&self.postures[i]),
                None => None,
            },
        }
    }
}

/// The position of the first posture for a data class.
pub open spec fn first_posture(s: Seq<PostureView>, data_class: Seq<char>) -> Option<int>
    decreases s.len(),
{
    if s.len() == 0 {
        None
    } else {
        match first_posture(s.drop_last(), data_class) {
            Some(i) => Some(i),
            None => if s.last().data_class == data_class {
                Some(s.len() - 1)
            } else {
                None
            },
        }
    }
}

proof fn lemma_first_posture(s: Seq<PostureView>, data_class: Seq<char>, k: int)
    requires
        0 <= k <= s.len(),
        first_posture(s.take(k), data_class) is Some,
    ensures
        first_posture(s, data_class) == first_posture(s.take(k), data_class),
    decreases s.len() - k,
{
    if k < s.len() {
        assert(s.take(k + 1).drop_last() =~= s.take(k));
        lemma_first_posture(s, data_class, k + 1);
    } else {
        assert(s.take(k) =~= s);
    }
}

/// The position of the posture that applies to a data class: the first for it,
/// else the first for all others.
pub open spec fn posture_at(s: Seq<PostureView>, data_class: Seq<char>) -> Option<int> {
    match first_posture(s, data_class) {
        Some(i) => Some(i),
        None => first_posture(s, "*"@),
    }
}

/// What a declaration permits.
#[derive(Debug, Clone, PartialEq, Eq)]
pub enum Permission {
    /// The exchange, at a level and with a recognition mode.
    Permitted {
        /// The level.
        level: HarmonizationLevel,
        /// The recognition mode.
        recognition: RecognitionMode,
    },
    /// Nothing, with the reason.
    Refused {
        /// Why.
        reason: String,
    },
    /// There is no declaration.
    NoDeclaration,
}

/// A permission as a mathematical value.
#[verifier::ext_equal]
pub enum PermissionView {
    /// See [`Permission::Permitted`].
    Permitted { level: HarmonizationLevel, recognition: RecognitionMode },
    /// See [`Permission::Refused`].
    Refused { reason: Seq<char> },
    /// See [`Permission::NoDeclaration`].
    NoDeclaration,
}

impl View for Permission {
    type V = PermissionView;

    open spec fn view(&self) -> PermissionView {
        match self {
            Permission::Permitted { level, recognition } => PermissionView::Permitted {
                level: *level,
                recognition: *recognition,
            },
            Permission::Refused { reason } => PermissionView::Refused { reason: reason@ },
            Permission::NoDeclaration => PermissionView::NoDeclaration,
        }
    }
}

/// The declarations, in all their versions.
#[derive(Debug, Clone, PartialEq, Eq)]
pub struct DeclarationSet {
    /// The declarations.
    pub declarations: Vec<InteropDeclaration>,
}

/// Whether a declaration is by a declarer toward a counterpart.
pub open spec fn concerns(
    d: InteropDeclaration,
    declarer: Seq<char>,
    counterpart: Seq<char>,
) -> bool {
    d.declarer@ == declarer && d.counterpart@ == counterpart
}

/// The position of the declaration with the greatest version by a declarer
/// toward a counterpart; the later one of two with the same version.
pub open spec fn latest(
    s: Seq<InteropDeclaration>,
    declarer: Seq<char>,
    counterpart: Seq<char>,
) -> Option<int>
    decreases s.len(),
{
    if s.len() == 0 {
        None
    } else {
        match latest(s.drop_last(), declarer, counterpart) {
            None => if concerns(s.last(), declarer, counterpart) {
                Some(s.len() - 1)
            } else {
                None
            },
            Some(i) => if concerns(s.last(), declarer, counterpart) && s.last().version
                >= s[i].version {
                Some(s.len() - 1)
            } else {
                Some(i)
            },
        }
    }
}

proof fn lemma_latest(s: Seq<InteropDeclaration>, declarer: Seq<char>, counterpart: Seq<char>)
    ensures
        latest(s, declarer, counterpart) matches Some(i) ==> 0 <= i < s.len() && concerns(
            s[i],
            declarer,
            counterpart,
        ),
        latest(s, declarer, counterpart) matches Some(i) ==> forall|k: int|
            0 <= k < s.len() && concerns(#[trigger] s[k], declarer, counterpart) ==> s[k].version
                <= s[i].version,
        latest(s, declarer, counterpart) is None ==> forall|k: int|
            0 <= k < s.len() ==> !concerns(#[trigger] s[k], declarer, counterpart),
    decreases s.len(),
{
    if s.len() > 0 {
        lemma_latest(s.drop_last(), declarer, counterpart);
        assert forall|k: int| 0 <= k < s.len() - 1 implies s.drop_last()[k] == #[trigger] s[k] by {}
    }
}

/// The posture of the latest declaration by a declarer toward a counterpart for
/// a data class.
pub open spec fn posture_toward(
    s: Seq<InteropDeclaration>,
    declarer: Seq<char>,
    counterpart: Seq<char>,
    data_class: Seq<char>,
) -> Option<PostureView> {
    match latest(s, declarer, counterpart) {
        None => None,
        Some(i) => match posture_at(posture_views(s[i].postures@), data_class) {
            None => None,
            Some(k) => Some(s[i].postures@[k]@),
        },
    }
}

/// The posture that applies: the one toward the counterpart, else the one
/// toward all others.
pub open spec fn live_posture(
    s: Seq<InteropDeclaration>,
    declarer: Seq<char>,
    counterpart: Seq<char>,
    data_class: Seq<char>,
) -> Option<PostureView> {
    match posture_toward(s, declarer, counterpart, data_class) {
        Some(p) => Some(p),
        None => posture_toward(s, declarer, "*"@, data_class),
    }
}

/// What declarations permit.
pub open spec fn permitted(
    s: Seq<InteropDeclaration>,
    declarer: Seq<char>,
    counterpart: Seq<char>,
    data_class: Seq<char>,
    transport: TransportMode,
) -> PermissionView {
    match live_posture(s, declarer, counterpart, data_class) {
        None => PermissionView::NoDeclaration,
        Some(p) => if p.level == HarmonizationLevel::L0 {
            PermissionView::Refused {
                reason: "`"@ + declarer + "` declares L0 for class `"@ + data_class
                    + "` toward `"@ + counterpart + "` — the WILL gap, never brokered around"@,
            }
        } else if !p.transports.contains(transport) {
            PermissionView::Refused {
                reason: "`"@ + declarer + "` offers "@ + way_list(p.transports) + " for class `"@
                    + data_class + ("` toward `"@ + counterpart + "`, not `"@ + way_token(
                    transport,
                ) + "`"@),
            }
        } else {
            PermissionView::Permitted { level: p.level, recognition: p.recognition }
        },
    }
}

fn list_ways(s: &Vec<TransportMode>) -> (r: String)
    ensures
        r@ == way_list(s@),
{
    let ghost want = s@.map_values(|m: TransportMode| way_name(m));
    let mut names: Vec<String> = Vec::new();
    let mut i: usize = 0;
    while i < s.len()
        invariant
            i <= s.len(),
            want == s@.map_values(|m: TransportMode| way_name(m)),
            texts(names@) =~= want.take(i as int),
        decreases s.len() - i,
    {
        let ghost before = texts(names@);
        let n = transport_name(s[i]).to_owned();
        names.push(n);
        assert(texts(names@) =~= before.push(way_name(s@[i as int])));
        i += 1;
    }
    assert(texts(names@) =~= want);
    let list = join(&names, ", ");
    cat3("[", list.as_str(), "]")
}

fn offers(s: &Vec<TransportMode>, mode: TransportMode) -> (r: bool)
    ensures
        r == s@.contains(mode),
{
    let mut i: usize = 0;
    while i < s.len()
        invariant
            i <= s.len(),
            forall|k: int| 0 <= k < i ==> #[trigger] s@[k] != mode,
        decreases s.len() - i,
    {
        if s[i] == mode {
            return true;
        }
        i += 1;
    }
    false
}

impl Default for DeclarationSet {
    fn default() -> (r: DeclarationSet)
        ensures
            r.declarations@ == Seq::<InteropDeclaration>::empty(),
    {
        DeclarationSet { declarations: Vec::new() }
    }
}

impl DeclarationSet {
    /// No declarations.
    pub fn new() -> (r: DeclarationSet)
        ensures
            r.declarations@ == Seq::<InteropDeclaration>::empty(),
    {
        DeclarationSet { declarations: Vec::new() }
    }

    /// Adds a declaration and gives the new number of them.
    pub fn register(&mut self, declaration: InteropDeclaration) -> (r: usize)
        ensures
            final(self).declarations@ == old(self).declarations@.push(declaration),
            r == final(self).declarations@.len(),
    {
        self.declarations.push(declaration);
        self.declarations.len()
    }

    fn pick(&self, declarer: &str, counterpart: &str) -> (r: Option<usize>)
        ensures
            match latest(self.declarations@, declarer@, counterpart@) {
                None => r is None,
                Some(k) => r matches Some(i) && i == k && i < self.declarations@.len(),
            },
    {
        let ghost all = self.declarations@;
        let mut best: Option<usize> = None;
        let mut i: usize = 0;
        assert(all.take(0) =~= Seq::<InteropDeclaration>::empty());
        while i < self.declarations.len()
            invariant
                i <= self.declarations.len(),
                all == self.declarations@,
                match latest(all.take(i as int), declarer@, counterpart@) {
                    None => best is None,
                    Some(k) => best matches Some(b) && b == k && b < i,
                },
            decreases self.declarations.len() - i,
        {
            proof {
                assert(all.take(i + 1).drop_last() =~= all.take(i as int));
                assert(all.take(i + 1).last() == all[i as int]);
            }
            let d = &self.declarations[i];
            if same_text(d.declarer.as_str(), declarer) && same_text(
                d.counterpart.as_str(),
                counterpart,
            ) {
                match best {
                    None => {
                        best = Some(i);
                    },
                    Some(b) => {
                        assert(all.take(i + 1)[b as int] == all[b as int]);
                        if d.version >= self.declarations[b].version {
                            best = Some(i);
                        }
                    },
                }
            }
            i += 1;
        }
        assert(all.take(i as int) =~= all);
        best
    }

    /// The latest declaration by a declarer toward a counterpart, else toward
    /// all others.
    pub fn latest_for(&self, declarer: &str, counterpart: &str) -> (r: Option<&InteropDeclaration>)
        ensures
            match latest(self.declarations@, declarer@, counterpart@) {
                Some(k) => r matches Some(d) && *d == self.declarations@[k],
                None => match latest(self.declarations@, declarer@, "*"@) {
                    Some(k) => r matches Some(d) && *d == self.declarations@[k],
                    None => r is None,
                },
            },
    {
        match self.pick(declarer, counterpart) {
            Some(i) => Some(&self.declarations[i]),
            None => match self.pick(declarer, "*") {
                Some(i) => Some(&self.declarations[i]),
                None => None,
            },
        }
    }

    fn posture_in(&self, declarer: &str, counterpart: &str, data_class: &str) -> (r: Option<
        &ClassPosture,
    >)
        ensures
            match posture_toward(self.declarations@, declarer@, counterpart@, data_class@) {
                None => r is None,
                Some(v) => r matches Some(p) && p@ == v,
            },
    {
        match self.pick(declarer, counterpart) {
            None => None,
            Some(i) => self.declarations[i].posture_for(data_class),
        }
    }

    /// What the declarer's latest declarations permit toward a counterpart for
    /// a data class and a transport mode.
    pub fn permits(
        &self,
        declarer: &str,
        counterpart: &str,
        data_class: &str,
        transport: TransportMode,
    ) -> (r: Permission)
        ensures
            r@ == permitted(
                self.declarations@,
                declarer@,
                counterpart@,
                data_class@,
                transport,
            ),
    {
        let posture = match self.posture_in(declarer, counterpart, data_class) {
            Some(p) => p,
            None => match self.posture_in(declarer, "*", data_class) {
                Some(p) => p,
                None => {
                    return Permission::NoDeclaration;
                },
            },
        };
        if posture.level == HarmonizationLevel::L0 {
            return Permission::Refused {
                reason: cat7(
                    "`",
                    declarer,
                    "` declares L0 for class `",
                    data_class,
                    "` toward `",
                    counterpart,
                    "` — the WILL gap, never brokered around",
                ),
            };
        }
        if !offers(&posture.transports, transport) {
            let list = list_ways(&posture.transports);
            let rest = cat5(
                "` toward `",
                counterpart,
                "`, not `",
                transport_token(transport),
                "`",
            );
            return Permission::Refused {
                reason: cat7(
                    "`",
                    declarer,
                    "` offers ",
                    list.as_str(),
                    " for class `",
                    data_class,
                    rest.as_str(),
                ),
            };
        }
        Permission::Permitted { level: posture.level, recognition: posture.recognition }
    }
}

/// A declaration with a version that no earlier one exceeds takes effect at
/// once: it is the latest.
pub proof fn newer_declarations_supersede(s: Seq<InteropDeclaration>, d: InteropDeclaration)
    requires
        forall|k: int|
            0 <= k < s.len() && concerns(#[trigger] s[k], d.declarer@, d.counterpart@)
                ==> s[k].version <= d.version,
    ensures
        latest(s.push(d), d.declarer@, d.counterpart@) == Some(s.len() as int),
{
    lemma_latest(s, d.declarer@, d.counterpart@);
    assert(s.push(d).drop_last() =~= s);
    match latest(s, d.declarer@, d.counterpart@) {
        Some(i) => {
            assert(s.push(d)[i] == s[i]);
            assert(concerns(s[i], d.declarer@, d.counterpart@));
        },
        None => {},
    }
}

/// What is permitted is offered: the posture that applies has the transport
/// mode and is not at the lowest level.
pub proof fn permission_is_willingness(
    s: Seq<InteropDeclaration>,
    declarer: Seq<char>,
    counterpart: Seq<char>,
    data_class: Seq<char>,
    transport: TransportMode,
)
    requires
        permitted(s, declarer, counterpart, data_class, transport) is Permitted,
    ensures
        live_posture(s, declarer, counterpart, data_class) matches Some(p) && p.level
            != HarmonizationLevel::L0 && p.transports.contains(transport),
{
}

/// Whether no two postures are for the same class.
pub open spec fn classes_differ(s: Seq<PostureView>) -> bool {
    forall|i: int, j: int|
        0 <= i < j < s.len() ==> (#[trigger] s[i]).data_class != (#[trigger] s[j]).data_class
}

/// Whether postures stand in strictly ascending order of their classes.
spec fn postures_ascend(s: Seq<PostureView>) -> bool {
    forall|i: int, j: int|
        0 <= i < j < s.len() ==> text_lt(
            (#[trigger] s[i]).data_class,
            (#[trigger] s[j]).data_class,
        )
}

pub(crate) proof fn lemma_posture_place(t: Seq<PostureView>, class: Seq<char>)
    ensures
        0 <= posture_place(t, class) <= t.len(),
        forall|i: int|
            posture_place(t, class) <= i < t.len() ==> text_lt(class, (#[trigger] t[i]).data_class),
        posture_place(t, class) > 0 ==> !text_lt(class, t[posture_place(t, class) - 1].data_class),
    decreases t.len(),
{
    if t.len() > 0 && text_lt(class, t.last().data_class) {
        lemma_posture_place(t.drop_last(), class);
        assert forall|i: int| posture_place(t, class) <= i < t.len() implies text_lt(
            class,
            (#[trigger] t[i]).data_class,
        ) by {
            if i < t.len() - 1 {
                assert(t.drop_last()[i] == t[i]);
            }
        }
    }
}

proof fn lemma_sorted_postures(s: Seq<PostureView>)
    requires
        classes_differ(s),
    ensures
        postures_ascend(sorted_postures(s)),
        sorted_postures(s).len() == s.len(),
        forall|p: PostureView| #[trigger] sorted_postures(s).contains(p) <==> s.contains(p),
    decreases s.len(),
{
    if s.len() > 0 {
        let short = s.drop_last();
        let x = s.last();
        assert(classes_differ(short)) by {
            assert forall|i: int, j: int| 0 <= i < j < short.len() implies (
            #[trigger] short[i]).data_class != (#[trigger] short[j]).data_class by {
                assert(short[i] == s[i] && short[j] == s[j]);
            }
        }
        lemma_sorted_postures(short);
        let t = sorted_postures(short);
        let class = x.data_class;
        let p = posture_place(t, class);
        lemma_posture_place(t, class);
        let r = t.insert(p, x);
        assert forall|i: int| 0 <= i < p implies text_lt((#[trigger] t[i]).data_class, class) by {
            assert(t.contains(t[i]));
            let k = short.index_of(t[i]);
            assert(s[k].data_class != s[s.len() - 1].data_class);
            let last = t[p - 1];
            assert(t.contains(last));
            let m = short.index_of(last);
            assert(s[m].data_class != s[s.len() - 1].data_class);
            crate::text::lemma_text_lt_total(last.data_class, class);
            if i < p - 1 {
                assert(text_lt(t[i].data_class, last.data_class));
                crate::text::lemma_text_lt_transitive(t[i].data_class, last.data_class, class);
            }
        }
        assert forall|i: int, j: int| 0 <= i < j < r.len() implies text_lt(
            (#[trigger] r[i]).data_class,
            (#[trigger] r[j]).data_class,
        ) by {
            let a = if i <= p {
                i
            } else {
                i - 1
            };
            let b = if j < p {
                j
            } else {
                j - 1
            };
            if j == p {
                assert(r[i] == t[i]);
            } else if i == p {
                assert(r[j] == t[b]);
            } else {
                assert(r[i] == t[a] && r[j] == t[b]);
            }
        }
        assert forall|q: PostureView| #[trigger] r.contains(q) <==> s.contains(q) by {
            if r.contains(q) {
                let k = r.index_of(q);
                if k == p {
                    assert(s[s.len() - 1] == q);
                } else {
                    let m = if k < p {
                        k
                    } else {
                        k - 1
                    };
                    assert(t[m] == q);
                    assert(t.contains(q));
                    assert(s[short.index_of(q)] == q);
                }
            }
            if s.contains(q) {
                let k = s.index_of(q);
                if k == s.len() - 1 {
                    assert(r[p] == q);
                } else {
                    assert(short[k] == q);
                    assert(t.contains(q));
                    let m = t.index_of(q);
                    if m < p {
                        assert(r[m] == q);
                    } else {
                        assert(r[m + 1] == q);
                    }
                }
            }
        }
    }
}

proof fn lemma_ascending_postures_unique(a: Seq<PostureView>, b: Seq<PostureView>)
    requires
        postures_ascend(a),
        postures_ascend(b),
        forall|p: PostureView| #[trigger] a.contains(p) <==> b.contains(p),
    ensures
        a == b,
    decreases a.len(),
{
    if a.len() == 0 {
        if b.len() > 0 {
            assert(b.contains(b[0]));
            assert(a.contains(b[0]));
        }
        assert(a =~= b);
    } else {
        assert(a.contains(a.last())) by {
            assert(a[a.len() - 1] == a.last());
        }
        assert(b.contains(a.last()));
        assert(b.contains(b.last())) by {
            assert(b[b.len() - 1] == b.last());
        }
        assert(a.contains(b.last()));
        let i = a.index_of(b.last());
        let j = b.index_of(a.last());
        if i < a.len() - 1 {
            assert(text_lt(a[i].data_class, a[a.len() - 1].data_class));
            if j < b.len() - 1 {
                assert(text_lt(b[j].data_class, b[b.len() - 1].data_class));
                crate::text::lemma_text_lt_transitive(
                    a[i].data_class,
                    a[a.len() - 1].data_class,
                    a[i].data_class,
                );
            }
            crate::text::lemma_text_lt_irreflexive(a[i].data_class);
        }
        assert(a.last() == b.last());
        let x = a.drop_last();
        let y = b.drop_last();
        assert(postures_ascend(x)) by {
            assert forall|k: int, m: int| 0 <= k < m < x.len() implies text_lt(
                (#[trigger] x[k]).data_class,
                (#[trigger] x[m]).data_class,
            ) by {
                assert(x[k] == a[k] && x[m] == a[m]);
            }
        }
        assert(postures_ascend(y)) by {
            assert forall|k: int, m: int| 0 <= k < m < y.len() implies text_lt(
                (#[trigger] y[k]).data_class,
                (#[trigger] y[m]).data_class,
            ) by {
                assert(y[k] == b[k] && y[m] == b[m]);
            }
        }
        assert forall|p: PostureView| #[trigger] x.contains(p) <==> y.contains(p) by {
            if x.contains(p) {
                let k = x.index_of(p);
                assert(a[k] == p);
                assert(a.contains(p));
                let m = b.index_of(p);
                if m == b.len() - 1 {
                    assert(text_lt(a[k].data_class, a[a.len() - 1].data_class));
                    crate::text::lemma_text_lt_irreflexive(p.data_class);
                }
                assert(y[m] == p);
            }
            if y.contains(p) {
                let k = y.index_of(p);
                assert(b[k] == p);
                assert(b.contains(p));
                assert(a.contains(p));
                let m = a.index_of(p);
                if m == a.len() - 1 {
                    assert(text_lt(b[k].data_class, b[b.len() - 1].data_class));
                    crate::text::lemma_text_lt_irreflexive(p.data_class);
                }
                assert(x[m] == p);
            }
        }
        lemma_ascending_postures_unique(x, y);
        assert(a =~= x.push(a.last()));
        assert(b =~= y.push(b.last()));
    }
}

/// What is signed does not depend on the order in which the postures are
/// listed, as long as each class has one.
pub proof fn posture_order_does_not_matter(
    declarer: Seq<char>,
    counterpart: Seq<char>,
    version: u64,
    a: Seq<PostureView>,
    b: Seq<PostureView>,
    valid_from: Seq<char>,
    valid_to: Option<Seq<char>>,
)
    requires
        classes_differ(a),
        classes_differ(b),
        a.to_set() == b.to_set(),
    ensures
        declaration_bytes(declarer, counterpart, version, a, valid_from, valid_to)
            == declaration_bytes(declarer, counterpart, version, b, valid_from, valid_to),
{
    lemma_sorted_postures(a);
    lemma_sorted_postures(b);
    assert forall|p: PostureView| #[trigger] sorted_postures(a).contains(p) <==> sorted_postures(
        b,
    ).contains(p) by {
        assert(a.to_set().contains(p) == b.to_set().contains(p));
        assert(a.contains(p) == a.to_set().contains(p));
        assert(b.contains(p) == b.to_set().contains(p));
    }
    lemma_ascending_postures_unique(sorted_postures(a), sorted_postures(b));
}

/// A declaration that its declarer issued verifies wherever the declarer's key is
/// registered.
pub proof fn issued_declarations_verify(d: InteropDeclaration, key: KeyPair, graph: GraphView)
    requires
        issued(key, SigningDomain::InteropDeclaration, d.bytes(), d.signature@),
        registered(graph, d.declarer@, key),
    ensures
        d.check(graph) is Ok,
{
}

/// Whether postures are the same but for the order in which each lists its
/// transport modes.
pub open spec fn same_but_for_ways(a: Seq<PostureView>, b: Seq<PostureView>) -> bool {
    a.len() == b.len() && forall|i: int|
        0 <= i < a.len() ==> (#[trigger] a[i]).data_class == (#[trigger] b[i]).data_class
            && a[i].level == b[i].level && a[i].recognition == b[i].recognition && way_tokens(
            a[i].transports,
        ).to_multiset() == way_tokens(b[i].transports).to_multiset() && a[i].escalation
            == b[i].escalation && a[i].reciprocity == b[i].reciprocity
}

proof fn lemma_places_agree(a: Seq<PostureView>, b: Seq<PostureView>, class: Seq<char>)
    requires
        same_but_for_ways(a, b),
    ensures
        posture_place(a, class) == posture_place(b, class),
        0 <= posture_place(a, class) <= a.len(),
    decreases a.len(),
{
    if a.len() > 0 {
        assert(a[a.len() - 1].data_class == b[b.len() - 1].data_class);
        assert(same_but_for_ways(a.drop_last(), b.drop_last())) by {
            assert forall|i: int| 0 <= i < a.len() - 1 implies (#[trigger] a.drop_last()[i])
                == a[i] && (#[trigger] b.drop_last()[i]) == b[i] by {}
        }
        lemma_places_agree(a.drop_last(), b.drop_last(), class);
    }
}

proof fn lemma_sorted_alike(a: Seq<PostureView>, b: Seq<PostureView>)
    requires
        same_but_for_ways(a, b),
    ensures
        same_but_for_ways(sorted_postures(a), sorted_postures(b)),
    decreases a.len(),
{
    if a.len() > 0 {
        let short_a = a.drop_last();
        let short_b = b.drop_last();
        assert forall|i: int| 0 <= i < short_a.len() implies (#[trigger] short_a[i]) == a[i] && (
        #[trigger] short_b[i]) == b[i] by {}
        lemma_sorted_alike(short_a, short_b);
        let x = a[a.len() - 1];
        let y = b[b.len() - 1];
        let s = sorted_postures(short_a);
        let t = sorted_postures(short_b);
        lemma_places_agree(s, t, x.data_class);
        let p = posture_place(s, x.data_class);
        let more = s.insert(p, x);
        let other = t.insert(p, y);
        assert forall|i: int| 0 <= i < more.len() implies same_but_for_ways(
            seq![#[trigger] more[i]],
            seq![#[trigger] other[i]],
        ) by {
            if i < p {
                assert(more[i] == s[i] && other[i] == t[i]);
            } else if i > p {
                assert(more[i] == s[i - 1] && other[i] == t[i - 1]);
            }
        }
        assert forall|i: int| 0 <= i < more.len() implies (#[trigger] more[i]).data_class == (
        #[trigger] other[i]).data_class && more[i].level == other[i].level && more[i].recognition
            == other[i].recognition && way_tokens(more[i].transports).to_multiset() == way_tokens(
            other[i].transports,
        ).to_multiset() && more[i].escalation == other[i].escalation && more[i].reciprocity
            == other[i].reciprocity by {
            assert(same_but_for_ways(seq![more[i]], seq![other[i]]));
            assert(seq![more[i]][0] == more[i] && seq![other[i]][0] == other[i]);
        }
    }
}

proof fn lemma_bytes_alike(a: Seq<PostureView>, b: Seq<PostureView>)
    requires
        same_but_for_ways(a, b),
    ensures
        posture_bytes(a) == posture_bytes(b),
    decreases a.len(),
{
    if a.len() > 0 {
        let x = a[a.len() - 1];
        let y = b[b.len() - 1];
        assert forall|i: int| 0 <= i < a.len() - 1 implies (#[trigger] a.drop_last()[i]) == a[i]
            && (#[trigger] b.drop_last()[i]) == b[i] by {}
        lemma_bytes_alike(a.drop_last(), b.drop_last());
        assert(x.data_class == y.data_class);
        crate::sets::sorting_ignores_the_order(
            way_tokens(x.transports),
            way_tokens(y.transports),
        );
    }
}

/// What is signed does not depend on the order in which a posture lists its
/// transport modes.
pub proof fn transport_order_does_not_matter(
    declarer: Seq<char>,
    counterpart: Seq<char>,
    version: u64,
    a: Seq<PostureView>,
    b: Seq<PostureView>,
    valid_from: Seq<char>,
    valid_to: Option<Seq<char>>,
)
    requires
        same_but_for_ways(a, b),
    ensures
        declaration_bytes(declarer, counterpart, version, a, valid_from, valid_to)
            == declaration_bytes(declarer, counterpart, version, b, valid_from, valid_to),
{
    lemma_sorted_alike(a, b);
    lemma_bytes_alike(sorted_postures(a), sorted_postures(b));
}

} // verus!
