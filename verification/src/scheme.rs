//! Recognition between schemes: by which mode a counterpart's objects are
//! recognized, what the declared levels imply for a data class, how a composite
//! statement resolves through bridges, and which bridges are fresh.

use vstd::prelude::*;

use crate::accreditation::{read_time, time_error};
use crate::canon::{text_field, text_fields, CanonicalWriter};
use crate::declaration::{
    latest, posture_at, posture_views, DeclarationSet, HarmonizationLevel, InteropDeclaration,
    RecognitionMode,
};
use crate::graph::{GraphView, TrustGraph};
use crate::keyring::KeyPair;
use crate::party::ObjectClass;
use crate::sets::{lists, sort_texts, sorted_texts, texts};
use crate::sign::{signing_error, SignatureSlot, SigningDomain};
use crate::signer::{check_signer, issued, registered, signer_check};
use crate::text::{cat3, cat5, cat7, same_text};
use crate::time::rfc3339;
use crate::{ErrorView, SignatifError};

verus! {

/// What came of a recognition check.
#[derive(Debug, Clone, PartialEq, Eq)]
pub enum Recognition {
    /// The counterpart is recognized under the mode.
    Recognized(RecognitionMode),
    /// It is not.
    Refused {
        /// Why.
        reason: String,
    },
}

/// A recognition as a mathematical value.
#[verifier::ext_equal]
pub enum RecognitionView {
    /// See [`Recognition::Recognized`].
    Recognized(RecognitionMode),
    /// See [`Recognition::Refused`].
    Refused { reason: Seq<char> },
}

impl View for Recognition {
    type V = RecognitionView;

    open spec fn view(&self) -> RecognitionView {
        match self {
            Recognition::Recognized(mode) => RecognitionView::Recognized(*mode),
            Recognition::Refused { reason } => RecognitionView::Refused { reason: reason@ },
        }
    }
}

/// A club's signed list of recognized counterparts.
#[derive(Debug, Clone, PartialEq, Eq)]
pub struct ClubList {
    /// The club.
    pub club: String,
    /// The kinds of objects that the list covers.
    pub object_classes: Vec<ObjectClass>,
    /// The recognized counterparts.
    pub members: Vec<String>,
    /// The operator's signature.
    pub signature: SignatureSlot,
}

/// The tokens of kinds of objects.
pub open spec fn class_tokens(s: Seq<ObjectClass>) -> Seq<Seq<char>> {
    s.map_values(|c: ObjectClass| c.spec_token())
}

/// What a club's operator signs. The order of the lists does not matter.
pub open spec fn club_bytes(
    club: Seq<char>,
    object_classes: Seq<ObjectClass>,
    members: Seq<Seq<char>>,
) -> Seq<u8> {
    text_field(club) + text_fields(sorted_texts(class_tokens(object_classes))) + text_fields(
        sorted_texts(members),
    )
}

impl ClubList {
    /// What the operator signs.
    pub open spec fn bytes(self) -> Seq<u8> {
        club_bytes(self.club@, self.object_classes@, texts(self.members@))
    }

    /// What checking the signature gives.
    pub open spec fn check(self, operator: Seq<char>, graph: GraphView) -> Result<
        Seq<char>,
        ErrorView,
    > {
        signer_check(
            graph,
            operator,
            "club operator: "@,
            "club operator `"@ + operator + "` has no such key"@,
            self.signature@,
            SigningDomain::MasterListWitness,
            self.bytes(),
        )
    }

    /// Whether the list has a counterpart and covers a kind of objects.
    pub open spec fn spec_recognizes(self, object: ObjectClass, counterpart: Seq<char>) -> bool {
        self.object_classes@.contains(object) && texts(self.members@).contains(counterpart)
    }

    fn payload(club: &str, object_classes: &Vec<ObjectClass>, members: &Vec<String>) -> (r: Vec<u8>)
        ensures
            r@ == club_bytes(club@, object_classes@, texts(members@)),
    {
        let ghost want = class_tokens(object_classes@);
        let mut tokens: Vec<String> = Vec::new();
        let mut i: usize = 0;
        while i < object_classes.len()
            invariant
                i <= object_classes.len(),
                want == class_tokens(object_classes@),
                texts(tokens@) =~= want.take(i as int),
            decreases object_classes.len() - i,
        {
            let ghost before = texts(tokens@);
            let t = object_classes[i].token().to_owned();
            tokens.push(t);
            assert(texts(tokens@) =~= before.push(object_classes@[i as int].spec_token()));
            i += 1;
        }
        assert(texts(tokens@) =~= want);
        let classes = sort_texts(&tokens);
        let listed = sort_texts(members);
        let mut w = CanonicalWriter::new();
        w.write_str(club);
        w.write_texts(&classes);
        w.write_texts(&listed);
        assert(w@ =~= club_bytes(club@, object_classes@, texts(members@)));
        w.into_bytes()
    }

    /// The operator signs a list.
    pub fn issue(
        club: &str,
        object_classes: Vec<ObjectClass>,
        members: Vec<String>,
        operator_key: &KeyPair,
    ) -> (r: Result<ClubList, SignatifError>)
        ensures
            r is Ok == operator_key.slot(
                SigningDomain::MasterListWitness,
                club_bytes(club@, object_classes@, texts(members@)),
            ) is Some,
            r matches Ok(l) ==> l.club@ == club@ && l.object_classes == object_classes && l.members
                == members && issued(
                *operator_key,
                SigningDomain::MasterListWitness,
                l.bytes(),
                l.signature@,
            ),
            r matches Err(e) ==> e@ == signing_error(),
    {
        let payload = ClubList::payload(club, &object_classes, &members);
        match SignatureSlot::sign(
            operator_key,
            SigningDomain::MasterListWitness,
            payload.as_slice(),
        ) {
            Err(e) => Err(e),
            Ok(signature) => Ok(
                ClubList { club: club.to_owned(), object_classes, members, signature },
            ),
        }
    }

    /// Checks the signature under the operator's registered key.
    pub fn verify(&self, operator: &str, graph: &TrustGraph) -> (r: Result<(), SignatifError>)
        ensures
            match self.check(operator@, graph@) {
                Ok(_) => r is Ok,
                Err(f) => r matches Err(e) && e@ == f,
            },
    {
        let missing = cat3("club operator `", operator, "` has no such key");
        let payload = ClubList::payload(self.club.as_str(), &self.object_classes, &self.members);
        match check_signer(
            graph,
            operator,
            "club operator: ",
            missing.as_str(),
            &self.signature,
            SigningDomain::MasterListWitness,
            payload.as_slice(),
        ) {
            Err(e) => Err(e),
            Ok(_) => Ok(()),
        }
    }

    /// Whether the list has a counterpart and covers a kind of objects.
    pub fn recognizes(&self, object: ObjectClass, counterpart: &str) -> (r: bool)
        ensures
            r == self.spec_recognizes(object, counterpart@),
    {
        let mut i: usize = 0;
        while i < self.object_classes.len()
            invariant
                i <= self.object_classes.len(),
                forall|k: int| 0 <= k < i ==> #[trigger] self.object_classes@[k] != object,
            decreases self.object_classes.len() - i,
        {
            if self.object_classes[i] == object {
                return lists(self.members.as_slice(), counterpart);
            }
            i += 1;
        }
        false
    }
}

/// A truth value in words.
pub open spec fn truth(b: bool) -> Seq<char> {
    if b {
        "true"@
    } else {
        "false"@
    }
}

fn truth_text(b: bool) -> (r: &'static str)
    ensures
        r@ == truth(b),
{
    if b {
        "true"
    } else {
        "false"
    }
}

/// Whether a mode recognizes a counterpart, given what the mode goes by.
pub open spec fn is_recognized(
    mode: RecognitionMode,
    object: ObjectClass,
    counterpart: Seq<char>,
    counterpart_pinned_here: bool,
    here_pinned_there: bool,
    club: Option<&ClubList>,
    on_master_list: bool,
) -> bool {
    match mode {
        RecognitionMode::UnilateralPinning => counterpart_pinned_here,
        RecognitionMode::BilateralAnchors => counterpart_pinned_here && here_pinned_there,
        RecognitionMode::ClubList => club matches Some(list) && list.spec_recognizes(
            object,
            counterpart,
        ),
        RecognitionMode::MasterListMesh => on_master_list,
    }
}

/// Why a mode does not recognize a counterpart.
pub open spec fn recognition_refusal(
    mode: RecognitionMode,
    object: ObjectClass,
    counterpart: Seq<char>,
    counterpart_pinned_here: bool,
    here_pinned_there: bool,
    club: Option<&ClubList>,
) -> Seq<char> {
    match mode {
        RecognitionMode::UnilateralPinning => "unilateral pinning: `"@ + counterpart
            + "`'s anchor is not pinned by this verifier"@,
        RecognitionMode::BilateralAnchors =>
        "bilateral anchors: the exchange is incomplete (`"@ + counterpart + "` pinned here: "@
            + truth(counterpart_pinned_here) + "; this verifier pinned there: "@ + truth(
            here_pinned_there,
        ) + ")"@,
        RecognitionMode::ClubList => match club {
            Some(_) => "club list: `"@ + counterpart + "` or object class `"@
                + object.spec_token() + "` is not on the list"@,
            None => "club list: no list held"@,
        },
        RecognitionMode::MasterListMesh => "master-list mesh: `"@ + counterpart
            + "` is not on the multi-witnessed master list"@,
    }
}

/// Whether a counterpart's objects of a kind are recognized under a mode: by a
/// pin of its anchor, by an exchange of anchors, by a club's list, or by the
/// master list.
pub fn recognize(
    mode: RecognitionMode,
    object: ObjectClass,
    counterpart: &str,
    counterpart_pinned_here: bool,
    here_pinned_there: bool,
    club: Option<&ClubList>,
    on_master_list: bool,
) -> (r: Recognition)
    ensures
        r@ == (if is_recognized(
            mode,
            object,
            counterpart@,
            counterpart_pinned_here,
            here_pinned_there,
            club,
            on_master_list,
        ) {
            RecognitionView::Recognized(mode)
        } else {
            RecognitionView::Refused {
                reason: recognition_refusal(
                    mode,
                    object,
                    counterpart@,
                    counterpart_pinned_here,
                    here_pinned_there,
                    club,
                ),
            }
        }),
{
    match mode {
        RecognitionMode::UnilateralPinning => if counterpart_pinned_here {
            Recognition::Recognized(mode)
        } else {
            Recognition::Refused {
                reason: cat3(
                    "unilateral pinning: `",
                    counterpart,
                    "`'s anchor is not pinned by this verifier",
                ),
            }
        },
        RecognitionMode::BilateralAnchors => if counterpart_pinned_here && here_pinned_there {
            Recognition::Recognized(mode)
        } else {
            Recognition::Refused {
                reason: cat7(
                    "bilateral anchors: the exchange is incomplete (`",
                    counterpart,
                    "` pinned here: ",
                    truth_text(counterpart_pinned_here),
                    "; this verifier pinned there: ",
                    truth_text(here_pinned_there),
                    ")",
                ),
            }
        },
        RecognitionMode::ClubList => match club {
            Some(list) => if list.recognizes(object, counterpart) {
                Recognition::Recognized(mode)
            } else {
                Recognition::Refused {
                    reason: cat5(
                        "club list: `",
                        counterpart,
                        "` or object class `",
                        object.token(),
                        "` is not on the list",
                    ),
                }
            },
            None => Recognition::Refused { reason: "club list: no list held".to_owned() },
        },
        RecognitionMode::MasterListMesh => if on_master_list {
            Recognition::Recognized(mode)
        } else {
            Recognition::Refused {
                reason: cat3(
                    "master-list mesh: `",
                    counterpart,
                    "` is not on the multi-witnessed master list",
                ),
            }
        },
    }
}

/// The level that one side declares toward the other for a data class, in its
/// latest declaration toward it, else toward all others.
pub open spec fn side_level(
    s: Seq<InteropDeclaration>,
    declarer: Seq<char>,
    counterpart: Seq<char>,
    data_class: Seq<char>,
) -> Option<HarmonizationLevel> {
    let found = match latest(s, declarer, counterpart) {
        Some(i) => Some(i),
        None => latest(s, declarer, "*"@),
    };
    match found {
        None => None,
        Some(i) => match posture_at(posture_views(s[i].postures@), data_class) {
            None => None,
            Some(k) => Some(s[i].postures@[k].level),
        },
    }
}

/// The level of a pair for a data class: the lower one of the two sides'; that
/// of one side if only it declares one.
pub open spec fn pair_level(
    s: Seq<InteropDeclaration>,
    here: Seq<char>,
    counterpart: Seq<char>,
    data_class: Seq<char>,
) -> Option<HarmonizationLevel> {
    match (
        side_level(s, here, counterpart, data_class),
        side_level(s, counterpart, here, data_class),
    ) {
        (Some(a), Some(b)) => Some(
            if a.spec_ordinal() < b.spec_ordinal() {
                a
            } else {
                b
            },
        ),
        (Some(a), None) => Some(a),
        (None, Some(b)) => Some(b),
        (None, None) => None,
    }
}

fn level_of_side(
    declarations: &DeclarationSet,
    declarer: &str,
    counterpart: &str,
    data_class: &str,
) -> (r: Option<HarmonizationLevel>)
    ensures
        r == side_level(declarations.declarations@, declarer@, counterpart@, data_class@),
{
    match declarations.latest_for(declarer, counterpart) {
        None => None,
        Some(d) => match d.posture_for(data_class) {
            None => None,
            Some(p) => Some(p.level),
        },
    }
}

/// The declared level of a pair for a data class.
pub fn declared_level(
    declarations: &DeclarationSet,
    here: &str,
    counterpart: &str,
    data_class: &str,
) -> (r: Option<HarmonizationLevel>)
    ensures
        r == pair_level(declarations.declarations@, here@, counterpart@, data_class@),
{
    let ours = level_of_side(declarations, here, counterpart, data_class);
    let theirs = level_of_side(declarations, counterpart, here, data_class);
    match (ours, theirs) {
        (Some(a), Some(b)) => Some(
            if a.ordinal() < b.ordinal() {
                a
            } else {
                b
            },
        ),
        (Some(a), None) => Some(a),
        (None, Some(b)) => Some(b),
        (None, None) => None,
    }
}

/// The level of a pair is the same from both sides.
pub proof fn levels_are_mutual(
    s: Seq<InteropDeclaration>,
    here: Seq<char>,
    counterpart: Seq<char>,
    data_class: Seq<char>,
)
    ensures
        pair_level(s, here, counterpart, data_class) == pair_level(
            s,
            counterpart,
            here,
            data_class,
        ),
{
}

/// How evidence of a data class flows.
#[derive(Debug, Clone, Copy, PartialEq, Eq, Structural)]
pub enum ClassBehaviour {
    /// Directly: structures map.
    Direct,
    /// As documents that stand in for it.
    Substituted,
    /// Not at all.
    Gap,
}

/// How evidence flows at a level: directly from the third level on, as
/// documents below it, and not at all at the lowest or without a level.
pub open spec fn behaviour_at(level: Option<HarmonizationLevel>) -> ClassBehaviour {
    match level {
        Some(l) => if l.spec_ordinal() >= 3 {
            ClassBehaviour::Direct
        } else if l.spec_ordinal() >= 1 {
            ClassBehaviour::Substituted
        } else {
            ClassBehaviour::Gap
        },
        None => ClassBehaviour::Gap,
    }
}

/// How evidence flows at a level.
pub fn behaviour_for_level(level: Option<HarmonizationLevel>) -> (r: ClassBehaviour)
    ensures
        r == behaviour_at(level),
{
    match level {
        Some(l) => if l.ordinal() >= 3 {
            ClassBehaviour::Direct
        } else if l.ordinal() >= 1 {
            ClassBehaviour::Substituted
        } else {
            ClassBehaviour::Gap
        },
        None => ClassBehaviour::Gap,
    }
}

/// A subject's identifiers in two schemes.
#[derive(Debug, Clone, PartialEq, Eq)]
pub struct BridgedIdentity {
    /// The identifier in the scheme of origin.
    pub origin: String,
    /// The identifier in the foreign scheme.
    pub foreign: String,
    /// The registered bridge.
    pub bridge: String,
}

/// A composite statement that a foreign scheme can resolve without knowing what
/// it means at its origin.
#[derive(Debug, Clone, PartialEq, Eq)]
pub struct PortableStatement {
    /// The kind of the statement.
    pub kind: String,
    /// The registered transform.
    pub transform: String,
    /// The inputs, by their identifiers at the origin.
    pub inputs: Vec<String>,
    /// The output.
    pub output: BridgedIdentity,
}

/// A statement as a foreign scheme sees it.
#[derive(Debug, Clone, PartialEq, Eq)]
pub struct ResolvedStatement {
    /// The kind of the statement.
    pub kind: String,
    /// The registered transform.
    pub transform: String,
    /// The inputs, by their foreign identifiers.
    pub inputs: Vec<String>,
    /// The output, by its foreign identifier.
    pub output: String,
}

/// The foreign identifier of the first bridge for an identifier at the origin.
pub open spec fn bridged(bridges: Seq<BridgedIdentity>, origin: Seq<char>) -> Option<Seq<char>>
    decreases bridges.len(),
{
    if bridges.len() == 0 {
        None
    } else {
        match bridged(bridges.drop_last(), origin) {
            Some(f) => Some(f),
            None => if bridges.last().origin@ == origin {
                Some(bridges.last().foreign@)
            } else {
                None
            },
        }
    }
}

proof fn lemma_bridged(bridges: Seq<BridgedIdentity>, origin: Seq<char>, k: int)
    requires
        0 <= k <= bridges.len(),
        bridged(bridges.take(k), origin) is Some,
    ensures
        bridged(bridges, origin) == bridged(bridges.take(k), origin),
    decreases bridges.len() - k,
{
    if k < bridges.len() {
        assert(bridges.take(k + 1).drop_last() =~= bridges.take(k));
        lemma_bridged(bridges, origin, k + 1);
    } else {
        assert(bridges.take(k) =~= bridges);
    }
}

fn find_bridge(bridges: &[BridgedIdentity], origin: &str) -> (r: Option<String>)
    ensures
        match bridged(bridges@, origin@) {
            None => r is None,
            Some(f) => r matches Some(s) && s@ == f,
        },
{
    let ghost all = bridges@;
    let mut i: usize = 0;
    assert(all.take(0) =~= Seq::<BridgedIdentity>::empty());
    while i < bridges.len()
        invariant
            i <= bridges.len(),
            all == bridges@,
            bridged(all.take(i as int), origin@) is None,
        decreases bridges.len() - i,
    {
        proof {
            assert(all.take(i + 1).drop_last() =~= all.take(i as int));
            assert(all.take(i + 1).last() == all[i as int]);
        }
        if same_text(bridges[i].origin.as_str(), origin) {
            proof {
                lemma_bridged(all, origin@, i + 1);
            }
            return Some(bridges[i].foreign.clone());
        }
        i += 1;
    }
    assert(all.take(i as int) =~= all);
    None
}

/// The inputs by their foreign identifiers, or the first one without a bridge.
pub open spec fn bridged_all(bridges: Seq<BridgedIdentity>, inputs: Seq<Seq<char>>) -> Result<
    Seq<Seq<char>>,
    Seq<char>,
>
    decreases inputs.len(),
{
    if inputs.len() == 0 {
        Ok(Seq::empty())
    } else {
        match bridged_all(bridges, inputs.drop_last()) {
            Err(x) => Err(x),
            Ok(done) => match bridged(bridges, inputs.last()) {
                Some(f) => Ok(done.push(f)),
                None => Err(inputs.last()),
            },
        }
    }
}

proof fn lemma_bridged_all(bridges: Seq<BridgedIdentity>, inputs: Seq<Seq<char>>, k: int)
    requires
        0 <= k <= inputs.len(),
        bridged_all(bridges, inputs.take(k)) is Err,
    ensures
        bridged_all(bridges, inputs) == bridged_all(bridges, inputs.take(k)),
    decreases inputs.len() - k,
{
    if k < inputs.len() {
        assert(inputs.take(k + 1).drop_last() =~= inputs.take(k));
        lemma_bridged_all(bridges, inputs, k + 1);
    } else {
        assert(inputs.take(k) =~= inputs);
    }
}

impl PortableStatement {
    /// Resolves the statement for a foreign scheme: every input through the
    /// bridges, the transform as it is.
    pub fn resolve(&self, bridges: &[BridgedIdentity]) -> (r: Result<
        ResolvedStatement,
        SignatifError,
    >)
        ensures
            match bridged_all(bridges@, texts(self.inputs@)) {
                Ok(inputs) => r matches Ok(s) && s.kind@ == self.kind@ && s.transform@
                    == self.transform@ && texts(s.inputs@) == inputs && s.output@
                    == self.output.foreign@,
                Err(x) => r matches Err(e) && e@ == ErrorView::Validation(
                    "portability: input `"@ + x
                        + "` has no bridge entry — the foreign scheme cannot resolve the structure"@,
                ),
            },
    {
        let ghost all = texts(self.inputs@);
        let mut inputs: Vec<String> = Vec::new();
        let mut i: usize = 0;
        assert(all.take(0) =~= Seq::<Seq<char>>::empty());
        assert(texts(inputs@) =~= Seq::<Seq<char>>::empty());
        while i < self.inputs.len()
            invariant
                i <= self.inputs.len(),
                all == texts(self.inputs@),
                bridged_all(bridges@, all.take(i as int)) == Ok::<Seq<Seq<char>>, Seq<char>>(
                    texts(inputs@),
                ),
            decreases self.inputs.len() - i,
        {
            let input = &self.inputs[i];
            proof {
                assert(all.take(i + 1).drop_last() =~= all.take(i as int));
                assert(all.take(i + 1).last() == input@);
            }
            match find_bridge(bridges, input.as_str()) {
                None => {
                    proof {
                        lemma_bridged_all(bridges@, all, i + 1);
                    }
                    return Err(
                        SignatifError::Validation(
                            cat3(
                                "portability: input `",
                                input.as_str(),
                                "` has no bridge entry — the foreign scheme cannot resolve the structure",
                            ),
                        ),
                    );
                },
                Some(f) => {
                    let ghost before = texts(inputs@);
                    inputs.push(f);
                    assert(texts(inputs@) =~= before.push(f@));
                },
            }
            i += 1;
        }
        assert(all.take(i as int) =~= all);
        Ok(
            ResolvedStatement {
                kind: self.kind.clone(),
                transform: self.transform.clone(),
                inputs,
                output: self.output.foreign.clone(),
            },
        )
    }
}

/// Resolving keeps the number of inputs and needs nothing but a bridge for each
/// of them.
pub proof fn bridges_suffice_to_resolve(bridges: Seq<BridgedIdentity>, inputs: Seq<Seq<char>>)
    ensures
        bridged_all(bridges, inputs) is Ok <==> forall|i: int|
            0 <= i < inputs.len() ==> bridged(bridges, #[trigger] inputs[i]) is Some,
        bridged_all(bridges, inputs) matches Ok(done) ==> done.len() == inputs.len() && forall|
            i: int,
        |
            0 <= i < inputs.len() ==> bridged(bridges, #[trigger] inputs[i]) == Some(done[i]),
    decreases inputs.len(),
{
    if inputs.len() > 0 {
        let short = inputs.drop_last();
        bridges_suffice_to_resolve(bridges, short);
        assert forall|i: int| 0 <= i < short.len() implies short[i] == #[trigger] inputs[i] by {}
        assert(inputs[inputs.len() - 1] == inputs.last());
        if bridged_all(bridges, inputs) is Err && bridged_all(bridges, short) is Err {
            let k = choose|k: int|
                0 <= k < short.len() && bridged(bridges, #[trigger] short[k]) is None;
            assert(bridged(bridges, inputs[k]) is None);
        }
    }
}

/// A bridge between schemes.
#[derive(Debug, Clone, PartialEq, Eq)]
pub struct BridgeDescriptor {
    /// The registered mapping.
    pub mapping_ref: String,
    /// The version.
    pub version: u64,
    /// The data classes that the bridge covers.
    pub covered_classes: Vec<String>,
    /// When it was refreshed.
    pub refreshed_at: String,
}

/// The health of bridges.
#[derive(Debug, Clone, PartialEq, Eq)]
pub struct BridgeHealth {
    /// An entry for each bridge.
    pub bridges: Vec<BridgeEntry>,
}

/// The health of a bridge.
#[derive(Debug, Clone, PartialEq, Eq)]
pub struct BridgeEntry {
    /// The registered mapping.
    pub mapping_ref: String,
    /// The version.
    pub version: u64,
    /// The covered data classes, each with whether it is fresh.
    pub classes: Vec<(String, bool)>,
}

impl BridgeDescriptor {
    /// Whether the bridge is fresh at a time: refreshed no later than then, and
    /// no longer ago than allowed.
    pub open spec fn fresh(self, at: Seq<char>, max_age_secs: i64) -> Result<bool, ErrorView> {
        match rfc3339(at) {
            None => Err(time_error("health instant"@, at)),
            Some(now) => match rfc3339(self.refreshed_at@) {
                None => Err(time_error("bridge refresh"@, self.refreshed_at@)),
                Some(refreshed) => Ok(0 <= now.spec_secs_since(refreshed) <= max_age_secs),
            },
        }
    }
}

/// Whether a bridge is fresh at a time.
pub fn bridge_fresh(bridge: &BridgeDescriptor, at: &str, max_age_secs: i64) -> (r: Result<
    bool,
    SignatifError,
>)
    ensures
        crate::outcome(r) == bridge.fresh(at@, max_age_secs),
{
    let now = match read_time("health instant", at) {
        Err(e) => {
            return Err(e);
        },
        Ok(t) => t,
    };
    let refreshed = match read_time("bridge refresh", bridge.refreshed_at.as_str()) {
        Err(e) => {
            return Err(e);
        },
        Ok(t) => t,
    };
    let age: i64 = now.signed_secs_since(refreshed);
    Ok(age <= max_age_secs && age >= 0)
}

/// Whether an entry says of exactly the classes that a bridge covers whether
/// they are fresh.
pub open spec fn reports(entry: BridgeEntry, bridge: BridgeDescriptor, fresh: bool) -> bool {
    &&& entry.mapping_ref@ == bridge.mapping_ref@
    &&& entry.version == bridge.version
    &&& entry.classes@.len() == bridge.covered_classes@.len()
    &&& forall|k: int|
        0 <= k < entry.classes@.len() ==> (#[trigger] entry.classes@[k]).0@
            == bridge.covered_classes@[k]@ && entry.classes@[k].1 == fresh
}

fn bridge_entry(bridge: &BridgeDescriptor, fresh: bool) -> (r: BridgeEntry)
    ensures
        reports(r, *bridge, fresh),
{
    let mut classes: Vec<(String, bool)> = Vec::new();
    let mut i: usize = 0;
    while i < bridge.covered_classes.len()
        invariant
            i <= bridge.covered_classes.len(),
            classes@.len() == i,
            forall|k: int|
                0 <= k < i ==> (#[trigger] classes@[k]).0@ == bridge.covered_classes@[k]@
                    && classes@[k].1 == fresh,
        decreases bridge.covered_classes.len() - i,
    {
        classes.push((bridge.covered_classes[i].clone(), fresh));
        i += 1;
    }
    BridgeEntry { mapping_ref: bridge.mapping_ref.clone(), version: bridge.version, classes }
}

/// The health of bridges at a time: a stale bridge degrades exactly the classes
/// that it covers. A bridge whose times cannot be read counts as stale.
pub fn bridge_health(bridges: &[BridgeDescriptor], at: &str, max_age_secs: i64) -> (r: BridgeHealth)
    ensures
        r.bridges@.len() == bridges@.len(),
        forall|i: int|
            0 <= i < bridges@.len() ==> reports(
                #[trigger] r.bridges@[i],
                bridges@[i],
                bridges@[i].fresh(at@, max_age_secs) == Ok::<bool, ErrorView>(true),
            ),
{
    let mut out: Vec<BridgeEntry> = Vec::new();
    let mut i: usize = 0;
    while i < bridges.len()
        invariant
            i <= bridges.len(),
            out@.len() == i,
            forall|k: int|
                0 <= k < i ==> reports(
                    #[trigger] out@[k],
                    bridges@[k],
                    bridges@[k].fresh(at@, max_age_secs) == Ok::<bool, ErrorView>(true),
                ),
        decreases bridges.len() - i,
    {
        let b = &bridges[i];
        let fresh = match bridge_fresh(b, at, max_age_secs) {
            Ok(f) => f,
            Err(_) => false,
        };
        out.push(bridge_entry(b, fresh));
        i += 1;
    }
    BridgeHealth { bridges: out }
}

/// What is signed does not depend on the order of the members.
pub proof fn member_order_does_not_matter(
    club: Seq<char>,
    object_classes: Seq<ObjectClass>,
    members: Seq<Seq<char>>,
    other_members: Seq<Seq<char>>,
)
    requires
        members.to_multiset() == other_members.to_multiset(),
    ensures
        club_bytes(club, object_classes, members) == club_bytes(
            club,
            object_classes,
            other_members,
        ),
{
    crate::sets::sorting_ignores_the_order(members, other_members);
}

/// A list that the operator issued verifies wherever the operator's key is
/// registered.
pub proof fn issued_lists_verify(club: ClubList, operator: Seq<char>, key: KeyPair, graph: GraphView)
    requires
        issued(key, SigningDomain::MasterListWitness, club.bytes(), club.signature@),
        registered(graph, operator, key),
    ensures
        club.check(operator, graph) is Ok,
{
}

} // verus!
