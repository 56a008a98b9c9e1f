//! Accreditations: an authority's signed grant to a conformity body. Whether a
//! grant is live is a question for the time of use.

use vstd::bytes::{spec_u64_to_le_bytes, u64_to_le_bytes};
use vstd::prelude::*;

use crate::bytes::utf8;
use crate::canon::{fields, option_text};
use crate::digest::{sha256, sha256_of};
use crate::graph::{GraphView, TrustGraph};
use crate::hierarchy::{option_str, text_or_nothing};
use crate::keyring::KeyPair;
use crate::party::{intake_error, intake_permits, ObjectClass, PartyClass};
use crate::sets::{join, joined_texts, lists, sort_texts, sorted_texts, texts};
use crate::sign::{canonical_fields, signing_error, slice_views, SignatureSlot, SigningDomain};
use crate::signer::{check_signer, issued, registered, signer_check};
use crate::text::{cat3, same_text};
use crate::time::{rfc3339, Timestamp};
use crate::{ErrorView, SignatifError};

verus! {

/// The tag of the domain of accreditations.
pub const ACCREDITATION_DOMAIN_TAG: &'static str = "UNIDPP-SIGNATIF/ACCREDITATION";

/// A grant of an accreditation.
#[derive(Debug, Clone, PartialEq, Eq)]
pub struct AccreditationObject {
    /// The accredited party.
    pub accredited: String,
    /// The accrediting authority.
    pub authority: String,
    /// The version.
    pub version: u64,
    /// What the party may attest; `*` stands for everything.
    pub scope: Vec<String>,
    /// The accepted suites.
    pub schemes: Vec<String>,
    /// The start of the validity.
    pub valid_from: String,
    /// Its end; without one the grant is open-ended.
    pub valid_to: Option<String>,
    /// The authority's signature.
    pub signature: SignatureSlot,
}

/// The bytes of a list of texts: in ascending order, with a unit separator
/// between them.
pub open spec fn sorted_bytes(s: Seq<Seq<char>>) -> Seq<u8> {
    utf8(joined_texts(sorted_texts(s), "\u{1f}"@))
}

/// What an authority signs.
pub open spec fn grant_bytes(
    accredited: Seq<char>,
    authority: Seq<char>,
    version: u64,
    scope: Seq<Seq<char>>,
    schemes: Seq<Seq<char>>,
    valid_from: Seq<char>,
    valid_to: Option<Seq<char>>,
) -> Seq<u8> {
    fields(
        seq![
            utf8(accredited),
            utf8(authority),
            spec_u64_to_le_bytes(version),
            sorted_bytes(scope),
            sorted_bytes(schemes),
            utf8(valid_from),
            utf8(text_or_nothing(valid_to)),
        ],
    )
}

fn sorted_list(s: &Vec<String>) -> (r: String)
    ensures
        utf8(r@) == sorted_bytes(texts(s@)),
{
    let sorted = sort_texts(s);
    join(&sorted, "\u{1f}")
}

fn grant_payload(
    accredited: &str,
    authority: &str,
    version: u64,
    scope: &Vec<String>,
    schemes: &Vec<String>,
    valid_from: &str,
    valid_to: Option<&str>,
) -> (r: Vec<u8>)
    ensures
        r@ == grant_bytes(
            accredited@,
            authority@,
            version,
            texts(scope@),
            texts(schemes@),
            valid_from@,
            option_str(valid_to),
        ),
{
    let v = u64_to_le_bytes(version);
    let covered = sorted_list(scope);
    let suites = sorted_list(schemes);
    let until: &str = match valid_to {
        Some(t) => t,
        None => "",
    };
    let parts: [&[u8]; 7] = [
        accredited.as_bytes(),
        authority.as_bytes(),
        v.as_slice(),
        covered.as_str().as_bytes(),
        suites.as_str().as_bytes(),
        valid_from.as_bytes(),
        until.as_bytes(),
    ];
    let r = canonical_fields(parts.as_slice());
    assert(slice_views(parts@) =~= seq![
        utf8(accredited@),
        utf8(authority@),
        spec_u64_to_le_bytes(version),
        sorted_bytes(texts(scope@)),
        sorted_bytes(texts(schemes@)),
        utf8(valid_from@),
        utf8(text_or_nothing(option_str(valid_to))),
    ]);
    r
}

/// What a malformed time in a role is answered.
pub open spec fn time_error(role: Seq<char>, text: Seq<char>) -> ErrorView {
    ErrorView::Validation(role + ": malformed timestamp `"@ + text + "`"@)
}

pub(crate) fn read_time(role: &str, text: &str) -> (r: Result<Timestamp, SignatifError>)
    ensures
        match rfc3339(text@) {
            Some(t) => r == Ok::<Timestamp, SignatifError>(t),
            None => r matches Err(e) && e@ == time_error(role@, text@),
        },
{
    match Timestamp::parse(text) {
        Some(t) => Ok(t),
        None => Err(
            SignatifError::Validation(
                crate::text::cat4(role, ": malformed timestamp `", text, "`"),
            ),
        ),
    }
}

impl AccreditationObject {
    /// What the authority signs.
    pub open spec fn bytes(self) -> Seq<u8> {
        grant_bytes(
            self.accredited@,
            self.authority@,
            self.version,
            texts(self.scope@),
            texts(self.schemes@),
            self.valid_from@,
            option_text(self.valid_to),
        )
    }

    /// What checking the signature gives.
    pub open spec fn check(self, graph: GraphView) -> Result<Seq<char>, ErrorView> {
        signer_check(
            graph,
            self.authority@,
            "accreditation authority: "@,
            "accreditation authority `"@ + self.authority@ + "` has no such key"@,
            self.signature@,
            SigningDomain::Accreditation,
            self.bytes(),
        )
    }

    /// Whether the grant is in force at a time.
    pub open spec fn spec_live_at(self, at: Seq<char>) -> Result<bool, ErrorView> {
        match rfc3339(at) {
            None => Err(time_error("liveness instant"@, at)),
            Some(now) => match rfc3339(self.valid_from@) {
                None => Err(time_error("window start"@, self.valid_from@)),
                Some(from) => match option_text(self.valid_to) {
                    None => Ok(from.le(now)),
                    Some(end) => match rfc3339(end) {
                        None => Err(time_error("window end"@, end)),
                        Some(to) => Ok(from.le(now) && now.le(to)),
                    },
                },
            },
        }
    }

    /// The canonical bytes.
    pub fn canonical_bytes(&self) -> (r: Vec<u8>)
        ensures
            r@ == self.bytes(),
    {
        let until: Option<&str> = match &self.valid_to {
            Some(t) => Some(t.as_str()),
            None => None,
        };
        grant_payload(
            self.accredited.as_str(),
            self.authority.as_str(),
            self.version,
            &self.scope,
            &self.schemes,
            self.valid_from.as_str(),
            until,
        )
    }

    /// The digest of the canonical bytes.
    pub fn digest(&self) -> (r: [u8; 32])
        ensures
            r@ == sha256_of(self.bytes()),
    {
        let bytes = self.canonical_bytes();
        sha256(bytes.as_slice()).0
    }

    /// The authority signs a grant.
    pub fn issue(
        accredited: &str,
        authority: &str,
        version: u64,
        scope: Vec<String>,
        schemes: Vec<String>,
        valid_from: &str,
        valid_to: Option<&str>,
        key: &KeyPair,
    ) -> (r: Result<AccreditationObject, SignatifError>)
        ensures
            r is Ok == key.slot(
                SigningDomain::Accreditation,
                grant_bytes(
                    accredited@,
                    authority@,
                    version,
                    texts(scope@),
                    texts(schemes@),
                    valid_from@,
                    option_str(valid_to),
                ),
            ) is Some,
            r matches Ok(g) ==> g.accredited@ == accredited@ && g.authority@ == authority@
                && g.version == version && g.scope == scope && g.schemes == schemes
                && g.valid_from@ == valid_from@ && option_text(g.valid_to) == option_str(valid_to)
                && issued(*key, SigningDomain::Accreditation, g.bytes(), g.signature@),
            r matches Err(e) ==> e@ == signing_error(),
    {
        let payload = grant_payload(
            accredited,
            authority,
            version,
            &scope,
            &schemes,
            valid_from,
            valid_to,
        );
        match SignatureSlot::sign(key, SigningDomain::Accreditation, payload.as_slice()) {
            Err(e) => Err(e),
            Ok(signature) => Ok(
                AccreditationObject {
                    accredited: accredited.to_owned(),
                    authority: authority.to_owned(),
                    version,
                    scope,
                    schemes,
                    valid_from: valid_from.to_owned(),
                    valid_to: match valid_to {
                        Some(t) => Some(t.to_owned()),
                        None => None,
                    },
                    signature,
                },
            ),
        }
    }

    /// Checks the signature under the authority's registered key.
    pub fn verify(&self, graph: &TrustGraph) -> (r: Result<(), SignatifError>)
        ensures
            match self.check(graph@) {
                Ok(_) => r is Ok,
                Err(f) => r matches Err(e) && e@ == f,
            },
    {
        let missing = cat3(
            "accreditation authority `",
            self.authority.as_str(),
            "` has no such key",
        );
        let payload = self.canonical_bytes();
        match check_signer(
            graph,
            self.authority.as_str(),
            "accreditation authority: ",
            missing.as_str(),
            &self.signature,
            SigningDomain::Accreditation,
            payload.as_slice(),
        ) {
            Err(e) => Err(e),
            Ok(_) => Ok(()),
        }
    }

    /// Whether the grant is in force at a time.
    pub fn live_at(&self, at: &str) -> (r: Result<bool, SignatifError>)
        ensures
            crate::outcome(r) == self.spec_live_at(at@),
    {
        let now = match read_time("liveness instant", at) {
            Err(e) => {
                return Err(e);
            },
            Ok(t) => t,
        };
        let from = match read_time("window start", self.valid_from.as_str()) {
            Err(e) => {
                return Err(e);
            },
            Ok(t) => t,
        };
        match &self.valid_to {
            None => Ok(from.not_after(now)),
            Some(end) => match read_time("window end", end.as_str()) {
                Err(e) => Err(e),
                Ok(to) => Ok(from.not_after(now) && now.not_after(to)),
            },
        }
    }

    /// Whether the scope covers something: by its own entry or by `*`.
    pub fn covers(&self, what: &str) -> (r: bool)
        ensures
            r == (texts(self.scope@).contains(what@) || texts(self.scope@).contains("*"@)),
    {
        lists(self.scope.as_slice(), what) || lists(self.scope.as_slice(), "*")
    }
}

/// The standing of a party's accreditation at a time.
#[derive(Debug, Clone, PartialEq, Eq)]
pub enum AccreditationStanding {
    /// The grant verifies and is in force.
    Live,
    /// The grant verifies but is not in force.
    Expired {
        /// The authority.
        authority: String,
        /// The end of the grant's validity.
        valid_to: String,
    },
    /// There is no grant to go by.
    Missing {
        /// Why.
        reason: String,
    },
}

/// A standing as a mathematical value.
#[verifier::ext_equal]
pub enum GrantStandingView {
    /// See [`AccreditationStanding::Live`].
    Live,
    /// See [`AccreditationStanding::Expired`].
    Expired { authority: Seq<char>, valid_to: Seq<char> },
    /// See [`AccreditationStanding::Missing`].
    Missing { reason: Seq<char> },
}

impl View for AccreditationStanding {
    type V = GrantStandingView;

    open spec fn view(&self) -> GrantStandingView {
        match self {
            AccreditationStanding::Live => GrantStandingView::Live,
            AccreditationStanding::Expired { authority, valid_to } => GrantStandingView::Expired {
                authority: authority@,
                valid_to: valid_to@,
            },
            AccreditationStanding::Missing { reason } => GrantStandingView::Missing {
                reason: reason@,
            },
        }
    }
}

/// Whether some grant is for a party.
pub open spec fn any_grant(grants: Seq<AccreditationObject>, accredited: Seq<char>) -> bool {
    exists|i: int| 0 <= i < grants.len() && (#[trigger] grants[i]).accredited@ == accredited
}

/// Whether a grant is for a party and verifies.
pub open spec fn admissible(
    grant: AccreditationObject,
    accredited: Seq<char>,
    graph: GraphView,
) -> bool {
    grant.accredited@ == accredited && grant.check(graph) is Ok
}

/// The position of the admissible grant with the greatest version; the later
/// one of two with the same version.
pub open spec fn latest_grant(
    grants: Seq<AccreditationObject>,
    accredited: Seq<char>,
    graph: GraphView,
) -> Option<int>
    decreases grants.len(),
{
    if grants.len() == 0 {
        None
    } else {
        match latest_grant(grants.drop_last(), accredited, graph) {
            None => if admissible(grants.last(), accredited, graph) {
                Some(grants.len() - 1)
            } else {
                None
            },
            Some(i) => if admissible(grants.last(), accredited, graph) && grants.last().version
                >= grants[i].version {
                Some(grants.len() - 1)
            } else {
                Some(i)
            },
        }
    }
}

proof fn lemma_latest_grant(
    grants: Seq<AccreditationObject>,
    accredited: Seq<char>,
    graph: GraphView,
)
    ensures
        latest_grant(grants, accredited, graph) matches Some(i) ==> 0 <= i < grants.len()
            && admissible(grants[i], accredited, graph) && forall|k: int|
            0 <= k < grants.len() && admissible(#[trigger] grants[k], accredited, graph)
                ==> grants[k].version <= grants[i].version,
        latest_grant(grants, accredited, graph) is None ==> forall|k: int|
            0 <= k < grants.len() ==> !admissible(#[trigger] grants[k], accredited, graph),
    decreases grants.len(),
{
    if grants.len() > 0 {
        lemma_latest_grant(grants.drop_last(), accredited, graph);
        assert forall|k: int| 0 <= k < grants.len() - 1 implies grants.drop_last()[k]
            == #[trigger] grants[k] by {}
    }
}

/// The standing of a party's accreditation at a time: what the latest grant
/// that verifies says.
pub open spec fn grant_standing(
    grants: Seq<AccreditationObject>,
    accredited: Seq<char>,
    at: Seq<char>,
    graph: GraphView,
) -> GrantStandingView {
    if !any_grant(grants, accredited) {
        GrantStandingView::Missing {
            reason: "no accreditation grant held for `"@ + accredited + "`"@,
        }
    } else {
        match latest_grant(grants, accredited, graph) {
            None => GrantStandingView::Missing {
                reason: "every held grant for `"@ + accredited
                    + "` fails verification under this verifier's anchors"@,
            },
            Some(i) => match grants[i].spec_live_at(at) {
                Ok(true) => GrantStandingView::Live,
                Ok(false) => GrantStandingView::Expired {
                    authority: grants[i].authority@,
                    valid_to: match option_text(grants[i].valid_to) {
                        Some(t) => t,
                        None => "open-ended"@,
                    },
                },
                Err(e) => GrantStandingView::Missing { reason: e.text() },
            },
        }
    }
}

fn find_latest(grants: &[AccreditationObject], accredited: &str, graph: &TrustGraph) -> (r: (
    bool,
    Option<usize>,
))
    ensures
        r.0 == any_grant(grants@, accredited@),
        match latest_grant(grants@, accredited@, graph@) {
            None => r.1 is None,
            Some(k) => r.1 matches Some(i) && i == k && i < grants@.len(),
        },
{
    let ghost all = grants@;
    let mut any = false;
    let mut best: Option<usize> = None;
    let mut i: usize = 0;
    assert(all.take(0) =~= Seq::<AccreditationObject>::empty());
    while i < grants.len()
        invariant
            i <= grants.len(),
            all == grants@,
            any == exists|k: int| 0 <= k < i && (#[trigger] all[k]).accredited@ == accredited@,
            match latest_grant(all.take(i as int), accredited@, graph@) {
                None => best is None,
                Some(k) => best matches Some(b) && b == k && b < i,
            },
        decreases grants.len() - i,
    {
        proof {
            assert(all.take(i + 1).drop_last() =~= all.take(i as int));
            assert(all.take(i + 1).last() == all[i as int]);
        }
        let g = &grants[i];
        if same_text(g.accredited.as_str(), accredited) {
            any = true;
            assert(all[i as int].accredited@ == accredited@);
            if g.verify(graph).is_ok() {
                match best {
                    None => {
                        best = Some(i);
                    },
                    Some(b) => {
                        assert(all.take(i + 1)[b as int] == all[b as int]);
                        if g.version >= grants[b].version {
                            best = Some(i);
                        }
                    },
                }
            }
        }
        i += 1;
    }
    assert(all.take(i as int) =~= all);
    (any, best)
}

/// The standing of a party's accreditation at a time.
pub fn standing_at(
    grants: &[AccreditationObject],
    accredited: &str,
    at: &str,
    graph: &TrustGraph,
) -> (r: AccreditationStanding)
    ensures
        r@ == grant_standing(grants@, accredited@, at@, graph@),
{
    let (any, best) = find_latest(grants, accredited, graph);
    if !any {
        return AccreditationStanding::Missing {
            reason: cat3("no accreditation grant held for `", accredited, "`"),
        };
    }
    let latest = match best {
        None => {
            return AccreditationStanding::Missing {
                reason: cat3(
                    "every held grant for `",
                    accredited,
                    "` fails verification under this verifier's anchors",
                ),
            };
        },
        Some(i) => &grants[i],
    };
    match latest.live_at(at) {
        Ok(true) => AccreditationStanding::Live,
        Ok(false) => AccreditationStanding::Expired {
            authority: latest.authority.clone(),
            valid_to: match &latest.valid_to {
                Some(t) => t.clone(),
                None => "open-ended".to_owned(),
            },
        },
        Err(e) => AccreditationStanding::Missing { reason: e.to_string() },
    }
}

/// Whether a party of a class may grant accreditations.
pub fn check_grant_class(authority_party: PartyClass) -> (r: Result<(), SignatifError>)
    ensures
        r is Ok == authority_party.may_sign().contains(ObjectClass::Accreditation),
        r matches Err(e) ==> e@ == intake_error(authority_party, ObjectClass::Accreditation),
{
    intake_permits(authority_party, ObjectClass::Accreditation)
}

/// A live accreditation rests on a grant to the party that its authority
/// signed and that is in force; no grant that verifies is newer.
pub proof fn live_standings_have_a_grant(
    grants: Seq<AccreditationObject>,
    accredited: Seq<char>,
    at: Seq<char>,
    graph: GraphView,
)
    requires
        grant_standing(grants, accredited, at, graph) is Live,
    ensures
        exists|i: int|
            0 <= i < grants.len() && admissible(#[trigger] grants[i], accredited, graph)
                && grants[i].spec_live_at(at) == Ok::<bool, ErrorView>(true) && newest(
                grants,
                i,
                accredited,
                graph,
            ),
{
    lemma_latest_grant(grants, accredited, graph);
    let i = latest_grant(grants, accredited, graph).unwrap();
    assert(admissible(grants[i], accredited, graph));
    assert(newest(grants, i, accredited, graph));
}

/// Whether no admissible grant has a greater version than the one at a
/// position.
pub open spec fn newest(
    grants: Seq<AccreditationObject>,
    i: int,
    accredited: Seq<char>,
    graph: GraphView,
) -> bool {
    forall|k: int|
        0 <= k < grants.len() && admissible(#[trigger] grants[k], accredited, graph)
            ==> grants[k].version <= grants[i].version
}

/// A grant that verifies and that no earlier one exceeds in version decides the
/// standing alone.
pub proof fn newer_grants_supersede(
    grants: Seq<AccreditationObject>,
    grant: AccreditationObject,
    at: Seq<char>,
    graph: GraphView,
)
    requires
        grant.check(graph) is Ok,
        forall|k: int|
            0 <= k < grants.len() && admissible(#[trigger] grants[k], grant.accredited@, graph)
                ==> grants[k].version <= grant.version,
    ensures
        grant_standing(grants.push(grant), grant.accredited@, at, graph) == grant_standing(
            seq![grant],
            grant.accredited@,
            at,
            graph,
        ),
{
    let more = grants.push(grant);
    let one = seq![grant];
    lemma_latest_grant(grants, grant.accredited@, graph);
    assert(more.drop_last() =~= grants);
    assert(more.last() == grant);
    match latest_grant(grants, grant.accredited@, graph) {
        Some(i) => {
            assert(more[i] == grants[i]);
            assert(admissible(grants[i], grant.accredited@, graph));
        },
        None => {},
    }
    assert(more[grants.len() as int].accredited@ == grant.accredited@);
    assert(one[0].accredited@ == grant.accredited@);
    assert(one.drop_last() =~= Seq::<AccreditationObject>::empty());
    assert(latest_grant(one.drop_last(), grant.accredited@, graph) is None);
    assert(latest_grant(one, grant.accredited@, graph) == Some(0int));
}

/// What is signed does not depend on the order of the scope or of the suites.
pub proof fn list_order_does_not_matter(
    accredited: Seq<char>,
    authority: Seq<char>,
    version: u64,
    scope: Seq<Seq<char>>,
    other_scope: Seq<Seq<char>>,
    schemes: Seq<Seq<char>>,
    other_schemes: Seq<Seq<char>>,
    valid_from: Seq<char>,
    valid_to: Option<Seq<char>>,
)
    requires
        scope.to_multiset() == other_scope.to_multiset(),
        schemes.to_multiset() == other_schemes.to_multiset(),
    ensures
        grant_bytes(accredited, authority, version, scope, schemes, valid_from, valid_to)
            == grant_bytes(
            accredited,
            authority,
            version,
            other_scope,
            other_schemes,
            valid_from,
            valid_to,
        ),
{
    crate::sets::sorting_ignores_the_order(scope, other_scope);
    crate::sets::sorting_ignores_the_order(schemes, other_schemes);
}

/// A grant that the authority issued verifies wherever the authority's key is
/// registered.
pub proof fn issued_grants_verify(g: AccreditationObject, key: KeyPair, graph: GraphView)
    requires
        issued(key, SigningDomain::Accreditation, g.bytes(), g.signature@),
        registered(graph, g.authority@, key),
    ensures
        g.check(graph) is Ok,
{
}

} // verus!
