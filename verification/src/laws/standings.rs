//! What the standing of grants, declarations, devices, policies and bridges
//! promises.

use vstd::prelude::*;

use crate::acceptance::{fresh_enough, AcceptancePolicy, TruthMode};
use crate::accreditation::{
    admissible, grant_standing, latest_grant, AccreditationObject, GrantStandingView,
};
use crate::declaration::{
    first_posture, latest, lemma_posture_place, live_posture, permitted, posture_at, posture_place,
    posture_toward, posture_views, sorted_postures, HarmonizationLevel, InteropDeclaration,
    PermissionView, PostureView, RecognitionMode, TransportMode,
};
use crate::device::{first_credential, standing, SlotCredential, StandingView};
use crate::graph::{GraphView, NodeId};
use crate::keyring::KeyPair;
use crate::laws::not_later;
use crate::laws::objects::{
    devices_are_certified_by_their_makers, grants_are_signed_by_the_authority, signs_for,
};
use crate::party::ObjectClass;
use crate::scheme::{
    behaviour_at, bridged, bridged_all, is_recognized, pair_level, side_level, BridgeDescriptor,
    BridgedIdentity, ClassBehaviour, ClubList,
};
use crate::segments::{PolicyObject, PolicyVerdict};
use crate::sets::texts;
use crate::sign::SigningDomain;
use crate::sovereign::{issued_quorum, AttestationStatement, ClaimClass, SovereignAttestation};
use crate::text::{
    lemma_text_lt_irreflexive, lemma_text_lt_total, lemma_text_lt_transitive, text_lt,
};
use crate::time::rfc3339;
use crate::ErrorView;

verus! {

/// Whether a grant is in force at a time: all its times can be read, it began
/// no later, and it did not end before. Both ends count.
pub open spec fn in_force(grant: AccreditationObject, at: Seq<char>) -> bool {
    rfc3339(at) matches Some(now) && (rfc3339(grant.valid_from@) matches Some(from) && not_later(
        from,
        now,
    )) && (grant.valid_to matches Some(end) ==> (rfc3339(end@) matches Some(to) && not_later(
        now,
        to,
    )))
}

/// A grant is live at a time exactly when it is in force then.
pub proof fn grants_live_within_their_window(grant: AccreditationObject, at: Seq<char>)
    ensures
        grant.spec_live_at(at) == Ok::<bool, ErrorView>(true) <==> in_force(grant, at),
        grant.spec_live_at(at) is Err <==> rfc3339(at) is None || rfc3339(grant.valid_from@) is None
            || (grant.valid_to matches Some(end) && rfc3339(end@) is None),
{
}

/// Whether a grant is for a party and was signed by its authority.
pub open spec fn granted_to(
    grant: AccreditationObject,
    party: Seq<char>,
    g: GraphView,
) -> bool {
    grant.accredited@ == party && signs_for(
        g,
        grant.authority@,
        grant.signature@,
        SigningDomain::Accreditation,
        grant.bytes(),
    )
}

/// Whether a grant is the one that counts for a party: of those that its
/// authority signed, none has a greater version, and none after it the same.
pub open spec fn counts_for(
    grants: Seq<AccreditationObject>,
    i: int,
    party: Seq<char>,
    g: GraphView,
) -> bool {
    &&& 0 <= i < grants.len()
    &&& granted_to(grants[i], party, g)
    &&& forall|k: int|
        0 <= k < grants.len() && granted_to(#[trigger] grants[k], party, g) ==> grants[k].version
            <= grants[i].version && (k > i ==> grants[k].version < grants[i].version)
}

proof fn lemma_latest_grant(grants: Seq<AccreditationObject>, party: Seq<char>, g: GraphView)
    ensures
        latest_grant(grants, party, g) matches Some(i) ==> counts_for(grants, i, party, g),
        latest_grant(grants, party, g) is None <==> forall|k: int|
            0 <= k < grants.len() ==> !granted_to(#[trigger] grants[k], party, g),
    decreases grants.len(),
{
    if grants.len() > 0 {
        let short = grants.drop_last();
        let n = grants.len() - 1;
        lemma_latest_grant(short, party, g);
        grants_are_signed_by_the_authority(grants[n], g);
        assert(admissible(grants[n], party, g) == granted_to(grants[n], party, g));
        assert forall|k: int| 0 <= k < n implies short[k] == #[trigger] grants[k] by {}
        match latest_grant(short, party, g) {
            Some(i) => {
                assert(granted_to(short[i], party, g));
                assert(granted_to(grants[i], party, g));
                assert forall|k: int| 0 <= k < n && granted_to(#[trigger] grants[k], party, g)
                    implies grants[k].version <= grants[i].version && (k > i ==> grants[k].version
                    < grants[i].version) by {
                    assert(granted_to(short[k], party, g));
                }
            },
            None => {
                assert forall|k: int| 0 <= k < n implies !granted_to(
                    #[trigger] grants[k],
                    party,
                    g,
                ) by {
                    assert(!granted_to(short[k], party, g));
                }
            },
        }
    }
}

proof fn lemma_one_counts(
    grants: Seq<AccreditationObject>,
    i: int,
    k: int,
    party: Seq<char>,
    g: GraphView,
)
    requires
        counts_for(grants, i, party, g),
        counts_for(grants, k, party, g),
    ensures
        i == k,
{
    assert(granted_to(grants[i], party, g));
    assert(granted_to(grants[k], party, g));
}

/// The accreditation of a party is live exactly when the grant that counts for
/// it is in force, expired exactly when that grant's times can be read and it is
/// not, and missing otherwise, in particular without a grant that its authority
/// signed.
pub proof fn accreditations_follow_the_newest_grant(
    grants: Seq<AccreditationObject>,
    party: Seq<char>,
    at: Seq<char>,
    g: GraphView,
)
    ensures
        grant_standing(grants, party, at, g) is Live <==> exists|i: int| #[trigger]
            counts_for(grants, i, party, g) && in_force(grants[i], at),
        grant_standing(grants, party, at, g) is Expired <==> exists|i: int| #[trigger]
            counts_for(grants, i, party, g) && !in_force(grants[i], at) && grants[i].spec_live_at(
                at,
            ) is Ok,
        grant_standing(grants, party, at, g) matches GrantStandingView::Expired {
            authority,
            ..
        } ==> exists|i: int| #[trigger]
            counts_for(grants, i, party, g) && authority == grants[i].authority@,
        (forall|k: int| 0 <= k < grants.len() ==> !granted_to(#[trigger] grants[k], party, g))
            ==> grant_standing(grants, party, at, g) is Missing,
{
    lemma_latest_grant(grants, party, g);
    match latest_grant(grants, party, g) {
        Some(i) => {
            grants_live_within_their_window(grants[i], at);
            assert(counts_for(grants, i, party, g));
            assert(grants[i].accredited@ == party);
            assert forall|k: int| #[trigger] counts_for(grants, k, party, g) implies k == i by {
                lemma_one_counts(grants, i, k, party, g);
            }
        },
        None => {
            assert forall|k: int| !#[trigger] counts_for(grants, k, party, g) by {}
        },
    }
}

/// Whether a declaration is the one that counts between two parties: of those by
/// the one toward the other, none has a greater version, and none after it the
/// same.
pub open spec fn speaks_for(
    s: Seq<InteropDeclaration>,
    i: int,
    declarer: Seq<char>,
    counterpart: Seq<char>,
) -> bool {
    &&& 0 <= i < s.len()
    &&& s[i].declarer@ == declarer && s[i].counterpart@ == counterpart
    &&& forall|k: int|
        0 <= k < s.len() && (#[trigger] s[k]).declarer@ == declarer && s[k].counterpart@
            == counterpart ==> s[k].version <= s[i].version && (k > i ==> s[k].version
            < s[i].version)
}

/// The declaration that counts is found, and none exactly when there is none by
/// the one party toward the other.
pub proof fn the_newest_declaration_counts(
    s: Seq<InteropDeclaration>,
    declarer: Seq<char>,
    counterpart: Seq<char>,
)
    ensures
        latest(s, declarer, counterpart) matches Some(i) ==> speaks_for(
            s,
            i,
            declarer,
            counterpart,
        ),
        latest(s, declarer, counterpart) is None <==> forall|k: int|
            0 <= k < s.len() ==> !((#[trigger] s[k]).declarer@ == declarer && s[k].counterpart@
                == counterpart),
    decreases s.len(),
{
    if s.len() > 0 {
        let short = s.drop_last();
        let n = s.len() - 1;
        the_newest_declaration_counts(short, declarer, counterpart);
        assert forall|k: int| 0 <= k < n implies short[k] == #[trigger] s[k] by {}
        match latest(short, declarer, counterpart) {
            Some(i) => {
                assert(s[i] == short[i]);
            },
            None => {
                assert forall|k: int| 0 <= k < n implies !((#[trigger] s[k]).declarer@ == declarer
                    && s[k].counterpart@ == counterpart) by {
                    assert(short[k] == s[k]);
                }
                assert(s[n] == s.last());
            },
        }
    }
}

/// Whether a posture is the first for a class.
pub open spec fn first_for(s: Seq<PostureView>, class: Seq<char>, k: int) -> bool {
    0 <= k < s.len() && s[k].data_class == class && forall|j: int|
        0 <= j < k ==> (#[trigger] s[j]).data_class != class
}

/// Whether a list has a posture for a class.
pub open spec fn covers_class(s: Seq<PostureView>, class: Seq<char>) -> bool {
    exists|k: int| 0 <= k < s.len() && (#[trigger] s[k]).data_class == class
}

proof fn lemma_first_posture(s: Seq<PostureView>, class: Seq<char>)
    ensures
        first_posture(s, class) matches Some(k) ==> first_for(s, class, k),
        first_posture(s, class) is Some <==> covers_class(s, class),
    decreases s.len(),
{
    if s.len() > 0 {
        let short = s.drop_last();
        let n = s.len() - 1;
        lemma_first_posture(short, class);
        assert forall|k: int| 0 <= k < n implies short[k] == #[trigger] s[k] by {}
        match first_posture(short, class) {
            Some(k) => {
                assert(s[k] == short[k]);
                assert(s[k].data_class == class);
            },
            None => {
                assert forall|j: int| 0 <= j < n implies (#[trigger] s[j]).data_class != class by {
                    assert(short[j].data_class != class);
                }
                assert(s[n] == s.last());
            },
        }
    }
}

/// Whether a posture is the one that applies to a class: the first for the
/// class, or, without one, the first for all others.
pub open spec fn applies_to(s: Seq<PostureView>, class: Seq<char>, k: int) -> bool {
    first_for(s, class, k) || (!covers_class(s, class) && first_for(s, "*"@, k))
}

/// The posture that applies to a class is found, and none exactly when neither
/// the class nor all others are covered.
pub proof fn the_first_posture_for_the_class_applies(s: Seq<PostureView>, class: Seq<char>)
    ensures
        posture_at(s, class) matches Some(k) ==> applies_to(s, class, k),
        posture_at(s, class) is None <==> !covers_class(s, class) && !covers_class(s, "*"@),
{
    lemma_first_posture(s, class);
    lemma_first_posture(s, "*"@);
}

/// Whether a posture is what the declaration that counts says for a class.
pub open spec fn says(
    s: Seq<InteropDeclaration>,
    declarer: Seq<char>,
    counterpart: Seq<char>,
    class: Seq<char>,
    p: PostureView,
) -> bool {
    exists|i: int, k: int|
        speaks_for(s, i, declarer, counterpart) && #[trigger] applies_to(
            posture_views(s[i].postures@),
            class,
            k,
        ) && posture_views(s[i].postures@)[k] == p
}

proof fn lemma_one_speaks(
    s: Seq<InteropDeclaration>,
    i: int,
    k: int,
    declarer: Seq<char>,
    counterpart: Seq<char>,
)
    requires
        speaks_for(s, i, declarer, counterpart),
        speaks_for(s, k, declarer, counterpart),
    ensures
        i == k,
{
    assert(s[i].declarer@ == declarer);
    assert(s[k].declarer@ == declarer);
}

proof fn lemma_one_applies(s: Seq<PostureView>, class: Seq<char>, j: int, k: int)
    requires
        applies_to(s, class, j),
        applies_to(s, class, k),
    ensures
        j == k,
{
    assert(s[j].data_class == s[j].data_class);
    assert(s[k].data_class == s[k].data_class);
    if first_for(s, class, j) {
        assert(covers_class(s, class));
    }
    if first_for(s, class, k) {
        assert(covers_class(s, class));
    }
}

proof fn lemma_toward(
    s: Seq<InteropDeclaration>,
    declarer: Seq<char>,
    counterpart: Seq<char>,
    class: Seq<char>,
    p: PostureView,
)
    ensures
        posture_toward(s, declarer, counterpart, class) == Some(p) <==> says(
            s,
            declarer,
            counterpart,
            class,
            p,
        ),
{
    the_newest_declaration_counts(s, declarer, counterpart);
    if let Some(i) = latest(s, declarer, counterpart) {
        let all = posture_views(s[i].postures@);
        the_first_posture_for_the_class_applies(all, class);
        if let Some(k) = posture_at(all, class) {
            assert(all[k] == s[i].postures@[k]@);
            assert(applies_to(all, class, k));
        }
    }
    if says(s, declarer, counterpart, class, p) {
        let (i, k) = choose|i: int, k: int|
            speaks_for(s, i, declarer, counterpart) && #[trigger] applies_to(
                posture_views(s[i].postures@),
                class,
                k,
            ) && posture_views(s[i].postures@)[k] == p;
        assert(s[i].declarer@ == declarer);
        lemma_one_speaks(s, i, latest(s, declarer, counterpart)->0, declarer, counterpart);
        let all = posture_views(s[i].postures@);
        assert(all[k].data_class == all[k].data_class);
        if posture_at(all, class) is Some {
            lemma_one_applies(all, class, k, posture_at(all, class)->0);
        } else {
            assert(covers_class(all, class) || covers_class(all, "*"@));
        }
    }
}

/// Whether a posture is the one that binds a declarer toward a counterpart for a
/// class: what is declared toward the counterpart, or, if nothing is for the
/// class, what is declared toward all others.
pub open spec fn binds(
    s: Seq<InteropDeclaration>,
    declarer: Seq<char>,
    counterpart: Seq<char>,
    class: Seq<char>,
    p: PostureView,
) -> bool {
    says(s, declarer, counterpart, class, p) || ((forall|q: PostureView|
        !#[trigger] says(s, declarer, counterpart, class, q)) && says(s, declarer, "*"@, class, p))
}

/// An exchange is permitted exactly when the posture that binds the declarer is
/// above the lowest level and offers the transport, and then at the level and
/// with the recognition of that posture. There is no declaration exactly when
/// no posture binds.
pub proof fn exchanges_need_declared_willingness(
    s: Seq<InteropDeclaration>,
    declarer: Seq<char>,
    counterpart: Seq<char>,
    class: Seq<char>,
    transport: TransportMode,
    level: HarmonizationLevel,
    recognition: RecognitionMode,
)
    ensures
        permitted(s, declarer, counterpart, class, transport) == (PermissionView::Permitted {
            level,
            recognition,
        }) <==> exists|p: PostureView| #[trigger]
            binds(s, declarer, counterpart, class, p) && p.level != HarmonizationLevel::L0
                && p.transports.contains(transport) && level == p.level && recognition
                == p.recognition,
        permitted(s, declarer, counterpart, class, transport) is NoDeclaration <==> forall|
            p: PostureView,
        | !#[trigger] binds(s, declarer, counterpart, class, p),
{
    let live = live_posture(s, declarer, counterpart, class);
    assert forall|p: PostureView| #[trigger] binds(s, declarer, counterpart, class, p) == (live
        == Some(p)) by {
        lemma_toward(s, declarer, counterpart, class, p);
        lemma_toward(s, declarer, "*"@, class, p);
        let near = posture_toward(s, declarer, counterpart, class);
        if near is Some {
            lemma_toward(s, declarer, counterpart, class, near->0);
            assert(says(s, declarer, counterpart, class, near->0));
        } else {
            assert forall|q: PostureView| !#[trigger] says(s, declarer, counterpart, class, q) by {
                lemma_toward(s, declarer, counterpart, class, q);
            }
        }
    }
    if live is Some {
        assert(binds(s, declarer, counterpart, class, live->0));
    }
}

/// Whether a declaration speaks for one side toward the other, or, without one
/// toward the other, toward all others.
pub open spec fn sides_with(
    s: Seq<InteropDeclaration>,
    i: int,
    declarer: Seq<char>,
    counterpart: Seq<char>,
) -> bool {
    speaks_for(s, i, declarer, counterpart) || ((forall|k: int|
        0 <= k < s.len() ==> !((#[trigger] s[k]).declarer@ == declarer && s[k].counterpart@
            == counterpart)) && speaks_for(s, i, declarer, "*"@))
}

/// Whether one side declares a level toward the other for a class.
pub open spec fn declares(
    s: Seq<InteropDeclaration>,
    declarer: Seq<char>,
    counterpart: Seq<char>,
    class: Seq<char>,
    level: HarmonizationLevel,
) -> bool {
    exists|i: int, k: int|
        sides_with(s, i, declarer, counterpart) && #[trigger] applies_to(
            posture_views(s[i].postures@),
            class,
            k,
        ) && posture_views(s[i].postures@)[k].level == level
}

/// The level of a side is the one that it declares.
pub proof fn side_levels_are_declared(
    s: Seq<InteropDeclaration>,
    declarer: Seq<char>,
    counterpart: Seq<char>,
    class: Seq<char>,
    level: HarmonizationLevel,
)
    ensures
        side_level(s, declarer, counterpart, class) == Some(level) <==> declares(
            s,
            declarer,
            counterpart,
            class,
            level,
        ),
{
    the_newest_declaration_counts(s, declarer, counterpart);
    the_newest_declaration_counts(s, declarer, "*"@);
    let found = match latest(s, declarer, counterpart) {
        Some(i) => Some(i),
        None => latest(s, declarer, "*"@),
    };
    if let Some(i) = found {
        let all = posture_views(s[i].postures@);
        the_first_posture_for_the_class_applies(all, class);
        if let Some(k) = posture_at(all, class) {
            assert(all[k] == s[i].postures@[k]@);
            assert(applies_to(all, class, k));
            assert(sides_with(s, i, declarer, counterpart));
        }
    }
    if declares(s, declarer, counterpart, class, level) {
        let (i, k) = choose|i: int, k: int|
            sides_with(s, i, declarer, counterpart) && #[trigger] applies_to(
                posture_views(s[i].postures@),
                class,
                k,
            ) && posture_views(s[i].postures@)[k].level == level;
        assert(s[i].declarer@ == declarer);
        if speaks_for(s, i, declarer, counterpart) {
            lemma_one_speaks(s, i, latest(s, declarer, counterpart)->0, declarer, counterpart);
        } else {
            lemma_one_speaks(s, i, latest(s, declarer, "*"@)->0, declarer, "*"@);
        }
        let all = posture_views(s[i].postures@);
        assert(all[k].data_class == all[k].data_class);
        if posture_at(all, class) is Some {
            lemma_one_applies(all, class, k, posture_at(all, class)->0);
        } else {
            assert(covers_class(all, class) || covers_class(all, "*"@));
        }
    }
}

/// The place of a level among the levels.
pub open spec fn height(level: HarmonizationLevel) -> int {
    match level {
        HarmonizationLevel::L0 => 0,
        HarmonizationLevel::L1 => 1,
        HarmonizationLevel::L2 => 2,
        HarmonizationLevel::L3 => 3,
        HarmonizationLevel::L4 => 4,
        HarmonizationLevel::L5 => 5,
    }
}

/// The level of a pair is no higher than that of either side that declares one,
/// is one of theirs, and there is none exactly when neither declares one.
pub proof fn pairs_meet_at_the_lower_level(
    s: Seq<InteropDeclaration>,
    here: Seq<char>,
    there: Seq<char>,
    class: Seq<char>,
)
    ensures
        ({
            let ours = side_level(s, here, there, class);
            let theirs = side_level(s, there, here, class);
            let both = pair_level(s, here, there, class);
            &&& both is None <==> ours is None && theirs is None
            &&& both is Some ==> both == ours || both == theirs
            &&& both matches Some(l) ==> (ours matches Some(a) ==> height(l) <= height(a)) && (
            theirs matches Some(b) ==> height(l) <= height(b))
        }),
{
}

/// Evidence flows directly at the three highest levels, as documents at the two
/// below, and not at all at the lowest or without one.
pub proof fn levels_decide_how_evidence_flows(level: Option<HarmonizationLevel>)
    ensures
        behaviour_at(level) == ClassBehaviour::Direct <==> (level == Some(HarmonizationLevel::L3)
            || level == Some(HarmonizationLevel::L4) || level == Some(HarmonizationLevel::L5)),
        behaviour_at(level) == ClassBehaviour::Substituted <==> (level == Some(
            HarmonizationLevel::L1,
        ) || level == Some(HarmonizationLevel::L2)),
        behaviour_at(level) == ClassBehaviour::Gap <==> (level == None::<HarmonizationLevel>
            || level == Some(HarmonizationLevel::L0)),
{
}

/// A pin of the counterpart's anchor recognizes it one-sidedly, pins on both
/// sides recognize it bilaterally, a club recognizes it for the classes and
/// members on its list, and the mesh if it is on the master list; nothing else
/// plays a part in each.
pub proof fn modes_go_by_their_own_evidence(
    mode: RecognitionMode,
    object: ObjectClass,
    counterpart: Seq<char>,
    pinned_here: bool,
    pinned_there: bool,
    club: Option<&ClubList>,
    on_master_list: bool,
)
    ensures
        ({
            let yes = is_recognized(
                mode,
                object,
                counterpart,
                pinned_here,
                pinned_there,
                club,
                on_master_list,
            );
            &&& mode == RecognitionMode::UnilateralPinning ==> yes == pinned_here
            &&& mode == RecognitionMode::BilateralAnchors ==> yes == (pinned_here && pinned_there)
            &&& mode == RecognitionMode::MasterListMesh ==> yes == on_master_list
            &&& mode == RecognitionMode::ClubList ==> (yes <==> (club matches Some(list) && (
            exists|i: int|
                0 <= i < list.object_classes@.len() && #[trigger] list.object_classes@[i] == object)
                && (exists|j: int|
                0 <= j < list.members@.len() && (#[trigger] list.members@[j])@ == counterpart)))
        }),
{
    if let Some(list) = club {
        let all = texts(list.members@);
        if all.contains(counterpart) {
            assert(list.members@[all.index_of(counterpart)]@ == counterpart);
        }
        if exists|j: int| 0 <= j < list.members@.len() && (#[trigger] list.members@[j])@
            == counterpart {
            let j = choose|j: int|
                0 <= j < list.members@.len() && (#[trigger] list.members@[j])@ == counterpart;
            assert(all[j] == counterpart);
        }
        if list.object_classes@.contains(object) {
            assert(list.object_classes@[list.object_classes@.index_of(object)] == object);
        }
    }
}

/// A bridge is fresh exactly when both times can be read, it was refreshed no
/// later, and no more seconds ago than allowed.
pub proof fn bridges_stay_fresh_for_their_age(
    bridge: BridgeDescriptor,
    at: Seq<char>,
    max_age_secs: i64,
)
    ensures
        bridge.fresh(at, max_age_secs) == Ok::<bool, ErrorView>(true) <==> (rfc3339(at) matches Some(
            now,
        ) && (rfc3339(bridge.refreshed_at@) matches Some(then) && then.secs <= now.secs && now.secs
            - then.secs <= max_age_secs)) || (rfc3339(at) matches Some(now) && (rfc3339(
            bridge.refreshed_at@,
        ) matches Some(then) && now.secs - then.secs > i64::MAX && max_age_secs == i64::MAX)),
{
}

/// An identifier at the origin maps to the foreign one of the first bridge for
/// it, and to none exactly when no bridge is for it.
pub proof fn the_first_bridge_maps(bridges: Seq<BridgedIdentity>, origin: Seq<char>)
    ensures
        bridged(bridges, origin) is None <==> forall|i: int|
            0 <= i < bridges.len() ==> (#[trigger] bridges[i]).origin@ != origin,
        bridged(bridges, origin) matches Some(f) ==> exists|i: int|
            0 <= i < bridges.len() && (#[trigger] bridges[i]).origin@ == origin
                && bridges[i].foreign@ == f && forall|j: int|
                0 <= j < i ==> (#[trigger] bridges[j]).origin@ != origin,
    decreases bridges.len(),
{
    if bridges.len() > 0 {
        let short = bridges.drop_last();
        let n = bridges.len() - 1;
        the_first_bridge_maps(short, origin);
        match bridged(short, origin) {
            Some(f) => {
                let i = choose|i: int|
                    0 <= i < short.len() && (#[trigger] short[i]).origin@ == origin
                        && short[i].foreign@ == f && forall|j: int|
                        0 <= j < i ==> (#[trigger] short[j]).origin@ != origin;
                assert(bridges[i].origin@ == origin);
                assert forall|j: int| 0 <= j < i implies (#[trigger] bridges[j]).origin@
                    != origin by {
                    assert(short[j].origin@ != origin);
                }
            },
            None => {
                assert forall|j: int| 0 <= j < n implies (#[trigger] bridges[j]).origin@
                    != origin by {
                    assert(short[j].origin@ != origin);
                }
                assert(bridges[n] == bridges.last());
            },
        }
    }
}

/// Whether a credential is the first for a device and a slot key.
pub open spec fn first_held(
    s: Seq<SlotCredential>,
    i: int,
    device: Seq<char>,
    slot_key: Seq<char>,
) -> bool {
    0 <= i < s.len() && s[i].device@ == device && s[i].slot_key@ == slot_key && forall|j: int|
        0 <= j < i ==> !((#[trigger] s[j]).device@ == device && s[j].slot_key@ == slot_key)
}

proof fn lemma_first_credential(s: Seq<SlotCredential>, device: Seq<char>, slot_key: Seq<char>)
    ensures
        first_credential(s, device, slot_key) matches Some(i) ==> first_held(
            s,
            i,
            device,
            slot_key,
        ),
        first_credential(s, device, slot_key) is None <==> forall|j: int|
            0 <= j < s.len() ==> !((#[trigger] s[j]).device@ == device && s[j].slot_key@
                == slot_key),
    decreases s.len(),
{
    if s.len() > 0 {
        let short = s.drop_last();
        let n = s.len() - 1;
        lemma_first_credential(short, device, slot_key);
        assert forall|j: int| 0 <= j < n implies short[j] == #[trigger] s[j] by {}
        match first_credential(short, device, slot_key) {
            Some(i) => {
                assert(s[i] == short[i]);
            },
            None => {
                assert forall|j: int| 0 <= j < n implies !((#[trigger] s[j]).device@ == device
                    && s[j].slot_key@ == slot_key) by {
                    assert(short[j] == s[j]);
                }
                assert(s[n] == s.last());
            },
        }
    }
}

/// A slot key is certified for a segment exactly when the first credential held
/// for it was signed by its authority, is for that very segment, and the key is
/// not revoked. It is revoked exactly when all of this holds and the key is
/// among the revoked ones.
pub proof fn slots_are_certified_for_their_segment(
    credentials: Seq<SlotCredential>,
    device: Seq<char>,
    slot_key: Seq<char>,
    segment: Seq<char>,
    g: GraphView,
    revoked: Seq<Seq<char>>,
    authority: Seq<char>,
)
    ensures
        standing(credentials, device, slot_key, segment, g, revoked) == (StandingView::Certified {
            authority,
        }) <==> exists|i: int| #[trigger]
            first_held(credentials, i, device, slot_key) && signs_for(
                g,
                credentials[i].authority@,
                credentials[i].signature@,
                SigningDomain::Delegation,
                credentials[i].bytes(),
            ) && credentials[i].segment@ == segment && !revoked.contains(slot_key) && authority
                == credentials[i].authority@,
        standing(credentials, device, slot_key, segment, g, revoked) is Revoked <==> exists|i: int|
            #[trigger] first_held(credentials, i, device, slot_key) && signs_for(
                g,
                credentials[i].authority@,
                credentials[i].signature@,
                SigningDomain::Delegation,
                credentials[i].bytes(),
            ) && credentials[i].segment@ == segment && revoked.contains(slot_key),
{
    lemma_first_credential(credentials, device, slot_key);
    match first_credential(credentials, device, slot_key) {
        Some(i) => {
            assert(first_held(credentials, i, device, slot_key));
            devices_are_certified_by_their_makers(arbitrary(), credentials[i], g);
            assert forall|k: int| #[trigger] first_held(credentials, k, device, slot_key) implies k
                == i by {
                assert(credentials[i].device@ == device);
                assert(credentials[k].device@ == device);
            }
        },
        None => {
            assert forall|k: int| !#[trigger] first_held(credentials, k, device, slot_key) by {}
        },
    }
}

/// A reference to a policy is unrelated exactly when it names another policy,
/// stale exactly when the version that it names is below the one in force, which
/// is the superseding one if there is one, and current otherwise.
pub proof fn references_are_stale_below_the_version_in_force(
    policy: PolicyObject,
    policy_id: Seq<char>,
    version: u64,
)
    ensures
        ({
            let verdict = policy.standing(policy_id, version);
            let same = policy_id == policy.policy_id@;
            &&& verdict is Unrelated <==> !same
            &&& verdict is Stale <==> same && (policy.superseded_by matches Some(v) && version < v
                || policy.superseded_by is None && version < policy.version)
            &&& verdict matches PolicyVerdict::Stale { have, current } ==> have == version && (
            policy.superseded_by == Some(current) || (policy.superseded_by is None && current
                == policy.version))
        }),
{
}

/// An attestation is fresh enough exactly when no age is demanded, or both times
/// can be read and it was made no later and at most that many seconds before.
pub proof fn attestations_age(max_age: Option<i64>, now: Seq<char>, as_of: Seq<char>)
    ensures
        fresh_enough(max_age, now, as_of) <==> (max_age matches Some(max) ==> (rfc3339(
            now,
        ) matches Some(n) && (rfc3339(as_of) matches Some(a) && a.secs <= n.secs && (n.secs - a.secs
            <= max || (max == i64::MAX))))),
{
}

/// A policy counts an attestation for an element exactly when it does not demand
/// direct evidence of the element, lists the service and the claim, is met in
/// its quorum if the claim is conformity, and finds it fresh enough.
pub proof fn policies_count_listed_services(
    policy: AcceptancePolicy,
    x: SovereignAttestation,
    element: Seq<char>,
    now: Seq<char>,
)
    ensures
        policy.admits(x, element, now) <==> policy.element_modes.at(element) != Some(
            TruthMode::RequireDirect,
        ) && (exists|i: int|
            0 <= i < policy.attestation_services@.len() && (
            #[trigger] policy.attestation_services@[i])@ == x.service@) && (exists|j: int|
            0 <= j < policy.accepted_claims@.len() && #[trigger] policy.accepted_claims@[j]
                == x.statement.claim) && (x.statement.claim == ClaimClass::Conformity ==> (
        policy.minimum_quorum == 0 || (x.quorum matches Some(q) && q.threshold
            >= policy.minimum_quorum))) && fresh_enough(
            policy.max_age_secs,
            now,
            x.statement.as_of@,
        ),
{
    let all = texts(policy.attestation_services@);
    if all.contains(x.service@) {
        assert(policy.attestation_services@[all.index_of(x.service@)]@ == x.service@);
    }
    if exists|i: int|
        0 <= i < policy.attestation_services@.len() && (
        #[trigger] policy.attestation_services@[i])@ == x.service@ {
        let i = choose|i: int|
            0 <= i < policy.attestation_services@.len() && (
            #[trigger] policy.attestation_services@[i])@ == x.service@;
        assert(all[i] == x.service@);
    }
    if policy.accepted_claims@.contains(x.statement.claim) {
        assert(policy.accepted_claims@[policy.accepted_claims@.index_of(x.statement.claim)]
            == x.statement.claim);
    }
}

/// Inputs are mapped exactly when each has a bridge, and then each to the foreign
/// identifier of its first; otherwise the first without a bridge is told.
pub proof fn every_input_needs_a_bridge(bridges: Seq<BridgedIdentity>, inputs: Seq<Seq<char>>)
    ensures
        bridged_all(bridges, inputs) is Ok <==> forall|i: int|
            0 <= i < inputs.len() ==> bridged(bridges, #[trigger] inputs[i]) is Some,
        bridged_all(bridges, inputs) matches Ok(out) ==> out.len() == inputs.len() && forall|i: int|
            0 <= i < inputs.len() ==> bridged(bridges, inputs[i]) == Some(#[trigger] out[i]),
        bridged_all(bridges, inputs) matches Err(x) ==> exists|i: int|
            0 <= i < inputs.len() && #[trigger] inputs[i] == x && bridged(bridges, x) is None
                && forall|j: int|
                0 <= j < i ==> bridged(bridges, #[trigger] inputs[j]) is Some,
    decreases inputs.len(),
{
    if inputs.len() > 0 {
        let short = inputs.drop_last();
        let n = inputs.len() - 1;
        every_input_needs_a_bridge(bridges, short);
        assert forall|i: int| 0 <= i < n implies short[i] == #[trigger] inputs[i] by {}
        match bridged_all(bridges, short) {
            Ok(done) => {
                assert forall|i: int| 0 <= i < n implies bridged(
                    bridges,
                    #[trigger] inputs[i],
                ) is Some by {
                    assert(bridged(bridges, short[i]) is Some);
                }
                assert(inputs[n] == inputs.last());
                if let Ok(out) = bridged_all(bridges, inputs) {
                    assert forall|i: int| 0 <= i < inputs.len() implies bridged(bridges, inputs[i])
                        == Some(#[trigger] out[i]) by {
                        if i < n {
                            assert(out[i] == done[i]);
                            assert(short[i] == inputs[i]);
                        }
                    }
                }
            },
            Err(x) => {
                let i = choose|i: int|
                    0 <= i < short.len() && #[trigger] short[i] == x && bridged(bridges, x) is None
                        && forall|j: int|
                        0 <= j < i ==> bridged(bridges, #[trigger] short[j]) is Some;
                assert(inputs[i] == x);
                assert forall|j: int| 0 <= j < i implies bridged(
                    bridges,
                    #[trigger] inputs[j],
                ) is Some by {
                    assert(bridged(bridges, short[j]) is Some);
                }
            },
        }
    }
}

/// Whether postures are in the order of their classes.
pub open spec fn by_class(s: Seq<PostureView>) -> bool {
    forall|i: int, j: int|
        0 <= i < j < s.len() ==> !text_lt(
            (#[trigger] s[j]).data_class,
            (#[trigger] s[i]).data_class,
        )
}

/// Sorted postures are in the order of their classes, and none is lost or added.
pub proof fn postures_are_sorted_by_class(s: Seq<PostureView>)
    ensures
        by_class(sorted_postures(s)),
        sorted_postures(s).to_multiset() == s.to_multiset(),
    decreases s.len(),
{
    if s.len() > 0 {
        let t = sorted_postures(s.drop_last());
        postures_are_sorted_by_class(s.drop_last());
        let class = s.last().data_class;
        let p = posture_place(t, class);
        lemma_posture_place(t, class);
        let all = t.insert(p, s.last());
        assert forall|i: int| 0 <= i < p implies !text_lt(class, (#[trigger] t[i]).data_class) by {
            if i < p - 1 {
                let a = t[i].data_class;
                let b = t[p - 1].data_class;
                assert(!text_lt(b, a));
                if text_lt(class, a) {
                    lemma_text_lt_total(a, b);
                    if text_lt(a, b) {
                        lemma_text_lt_transitive(class, a, b);
                    }
                }
            }
        }
        assert forall|i: int| p <= i < t.len() implies !text_lt(
            (#[trigger] t[i]).data_class,
            class,
        ) by {
            if text_lt(t[i].data_class, class) {
                lemma_text_lt_transitive(class, t[i].data_class, class);
                lemma_text_lt_irreflexive(class);
            }
        }
        assert forall|i: int, j: int| 0 <= i < j < all.len() implies !text_lt(
            (#[trigger] all[j]).data_class,
            (#[trigger] all[i]).data_class,
        ) by {
            if i < p {
                assert(all[i] == t[i]);
            } else if i > p {
                assert(all[i] == t[i - 1]);
            }
            if j < p {
                assert(all[j] == t[j]);
            } else if j > p {
                assert(all[j] == t[j - 1]);
            }
        }
        vstd::seq_lib::to_multiset_insert(t, p, s.last());
        assert(s =~= s.drop_last().push(s.last()));
        vstd::seq_lib::to_multiset_build(s.drop_last(), s.last());
    }
}

/// Only a conformity claim is issued with a quorum, and none without one.
pub proof fn conformity_takes_a_quorum(
    statement: AttestationStatement,
    quorum: Option<(&NodeId, usize, &[&KeyPair])>,
)
    ensures
        issued_quorum(statement, quorum) matches Ok(q) ==> (q is Some <==> statement.claim
            == ClaimClass::Conformity),
        issued_quorum(statement, quorum) is Err ==> statement.claim == ClaimClass::Conformity,
        issued_quorum(statement, quorum) matches Ok(Some(q)) ==> (quorum matches Some(given)
            && q.quorum == given.0@ && q.threshold == given.1),
{
}

} // verus!
