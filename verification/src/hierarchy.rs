//! Certified hierarchies: chains of scoped delegations from a root to an
//! instance, and calibration evidence. A chain is checked when it is used: every
//! link must be signed and must admit the act.

use vstd::prelude::*;

use crate::bytes::utf8;
use crate::canon::fields;
use crate::digest::{sha256, sha256_of};
use crate::graph::{GraphView, TrustGraph};
use crate::keyring::KeyPair;
use crate::scope::{first_failing, DelegationScope, RequestView, ScopeRequest, ScopeView};
use crate::sign::{canonical_fields, signing_error, slice_views, SignatureSlot, SigningDomain};
use crate::signer::{check_signer, issued, registered, signer_check};
use crate::text::{cat3, cat5, cat7, count, decimal};
use crate::{first_error, ErrorView, SignatifError};

verus! {

/// The tiers of a certified hierarchy.
#[derive(Debug, Clone, Copy, PartialEq, Eq, Structural)]
pub enum HierarchyTier {
    /// The root.
    Root,
    /// The authority that accredits laboratories.
    IssuingAuthority,
    /// A laboratory.
    TestLab,
    /// A manufacturer's model.
    ManufacturerModel,
    /// A single instance.
    Instance,
}

impl HierarchyTier {
    /// The token of the tier.
    pub open spec fn spec_token(self) -> Seq<char> {
        match self {
            HierarchyTier::Root => "root"@,
            HierarchyTier::IssuingAuthority => "issuing-authority"@,
            HierarchyTier::TestLab => "test-lab"@,
            HierarchyTier::ManufacturerModel => "manufacturer-model"@,
            HierarchyTier::Instance => "instance"@,
        }
    }

    /// The token of the tier.
    pub fn token(self) -> (r: &'static str)
        ensures
            r@ == self.spec_token(),
    {
        match self {
            HierarchyTier::Root => "root",
            HierarchyTier::IssuingAuthority => "issuing-authority",
            HierarchyTier::TestLab => "test-lab",
            HierarchyTier::ManufacturerModel => "manufacturer-model",
            HierarchyTier::Instance => "instance",
        }
    }
}

/// One link of a chain: a scoped delegation from one tier to the next.
#[derive(Debug, Clone, PartialEq, Eq)]
pub struct ChainLink {
    /// The tier of the parent.
    pub from: HierarchyTier,
    /// The tier of the child.
    pub to: HierarchyTier,
    /// The child.
    pub child: String,
    /// What is delegated.
    pub scope: DelegationScope,
    /// The parent's signature.
    pub signature: SignatureSlot,
}

/// What the parent of a link signs.
pub open spec fn link_bytes(
    from: HierarchyTier,
    to: HierarchyTier,
    child: Seq<char>,
    scope: ScopeView,
) -> Seq<u8> {
    fields(seq![utf8(from.spec_token()), utf8(to.spec_token()), utf8(child), scope.bytes()])
}

impl ChainLink {
    /// What the parent signs.
    pub open spec fn bytes(self) -> Seq<u8> {
        link_bytes(self.from, self.to, self.child@, self.scope@)
    }

    /// What checking the link's signature under a parent gives.
    pub open spec fn check(self, parent: Seq<char>, graph: GraphView) -> Result<
        Seq<char>,
        ErrorView,
    > {
        signer_check(
            graph,
            parent,
            "chain parent: "@,
            "chain parent `"@ + parent + "` has no such key"@,
            self.signature@,
            SigningDomain::Delegation,
            self.bytes(),
        )
    }

    fn payload(from: HierarchyTier, to: HierarchyTier, child: &str, scope: &DelegationScope) -> (r:
        Vec<u8>)
        ensures
            r@ == link_bytes(from, to, child@, scope@),
    {
        let granted = scope.canonical_bytes();
        let parts: [&[u8]; 4] = [
            from.token().as_bytes(),
            to.token().as_bytes(),
            child.as_bytes(),
            granted.as_slice(),
        ];
        let r = canonical_fields(parts.as_slice());
        assert(slice_views(parts@) =~= seq![
            utf8(from.spec_token()),
            utf8(to.spec_token()),
            utf8(child@),
            scope@.bytes(),
        ]);
        r
    }

    /// The parent signs a link.
    pub fn issue(
        from: HierarchyTier,
        to: HierarchyTier,
        child: &str,
        scope: DelegationScope,
        parent_key: &KeyPair,
    ) -> (r: Result<ChainLink, SignatifError>)
        ensures
            r is Ok == parent_key.slot(
                SigningDomain::Delegation,
                link_bytes(from, to, child@, scope@),
            ) is Some,
            r matches Ok(l) ==> l.from == from && l.to == to && l.child@ == child@ && l.scope
                == scope && issued(
                *parent_key,
                SigningDomain::Delegation,
                link_bytes(from, to, child@, scope@),
                l.signature@,
            ),
            r matches Err(e) ==> e@ == signing_error(),
    {
        let payload = ChainLink::payload(from, to, child, &scope);
        match SignatureSlot::sign(parent_key, SigningDomain::Delegation, payload.as_slice()) {
            Err(e) => Err(e),
            Ok(signature) => Ok(
                ChainLink { from, to, child: child.to_owned(), scope, signature },
            ),
        }
    }

    /// Checks the link's signature under a parent's registered key.
    pub fn verify_signed_by(&self, parent: &str, graph: &TrustGraph) -> (r: Result<
        (),
        SignatifError,
    >)
        ensures
            match self.check(parent@, graph@) {
                Ok(_) => r is Ok,
                Err(f) => r matches Err(e) && e@ == f,
            },
    {
        let missing = cat3("chain parent `", parent, "` has no such key");
        let payload = ChainLink::payload(self.from, self.to, self.child.as_str(), &self.scope);
        match check_signer(
            graph,
            parent,
            "chain parent: ",
            missing.as_str(),
            &self.signature,
            SigningDomain::Delegation,
            payload.as_slice(),
        ) {
            Err(e) => Err(e),
            Ok(_) => Ok(()),
        }
    }
}

/// A calibration certificate: what a laboratory measured.
#[derive(Debug, Clone, PartialEq, Eq)]
pub struct CalibrationCertificate {
    /// What was measured on.
    pub device_under_test: String,
    /// What was measured.
    pub measurand: String,
    /// The result.
    pub result: String,
    /// Its uncertainty.
    pub uncertainty: String,
    /// Its unit.
    pub unit: String,
    /// The start of the calibration interval.
    pub valid_from: String,
    /// Its end.
    pub valid_to: Option<String>,
    /// The laboratory.
    pub laboratory: String,
    /// The laboratory's signature.
    pub signature: SignatureSlot,
}

/// The text of an optional string; nothing if there is none.
pub open spec fn text_or_nothing(s: Option<Seq<char>>) -> Seq<char> {
    match s {
        Some(t) => t,
        None => ""@,
    }
}

/// What a laboratory signs.
pub open spec fn calibration_bytes(
    device_under_test: Seq<char>,
    measurand: Seq<char>,
    result: Seq<char>,
    uncertainty: Seq<char>,
    unit: Seq<char>,
    valid_from: Seq<char>,
    valid_to: Option<Seq<char>>,
    laboratory: Seq<char>,
) -> Seq<u8> {
    fields(
        seq![
            utf8(device_under_test),
            utf8(measurand),
            utf8(result),
            utf8(uncertainty),
            utf8(unit),
            utf8(valid_from),
            utf8(text_or_nothing(valid_to)),
            utf8(laboratory),
        ],
    )
}

/// The text of an optional reference.
pub open spec fn option_str(s: Option<&str>) -> Option<Seq<char>> {
    match s {
        Some(t) => Some(t@),
        None => None,
    }
}

fn calibration_payload(
    device_under_test: &str,
    measurand: &str,
    result: &str,
    uncertainty: &str,
    unit: &str,
    valid_from: &str,
    valid_to: Option<&str>,
    laboratory: &str,
) -> (r: Vec<u8>)
    ensures
        r@ == calibration_bytes(
            device_under_test@,
            measurand@,
            result@,
            uncertainty@,
            unit@,
            valid_from@,
            option_str(valid_to),
            laboratory@,
        ),
{
    let until: &str = match valid_to {
        Some(t) => t,
        None => "",
    };
    let parts: [&[u8]; 8] = [
        device_under_test.as_bytes(),
        measurand.as_bytes(),
        result.as_bytes(),
        uncertainty.as_bytes(),
        unit.as_bytes(),
        valid_from.as_bytes(),
        until.as_bytes(),
        laboratory.as_bytes(),
    ];
    let r = canonical_fields(parts.as_slice());
    assert(slice_views(parts@) =~= seq![
        utf8(device_under_test@),
        utf8(measurand@),
        utf8(result@),
        utf8(uncertainty@),
        utf8(unit@),
        utf8(valid_from@),
        utf8(text_or_nothing(option_str(valid_to))),
        utf8(laboratory@),
    ]);
    r
}

impl CalibrationCertificate {
    /// What the laboratory signs.
    pub open spec fn bytes(self) -> Seq<u8> {
        calibration_bytes(
            self.device_under_test@,
            self.measurand@,
            self.result@,
            self.uncertainty@,
            self.unit@,
            self.valid_from@,
            crate::canon::option_text(self.valid_to),
            self.laboratory@,
        )
    }

    /// What checking the signature gives.
    pub open spec fn check(self, graph: GraphView) -> Result<Seq<char>, ErrorView> {
        signer_check(
            graph,
            self.laboratory@,
            "calibration laboratory: "@,
            "calibration laboratory `"@ + self.laboratory@ + "` has no such key"@,
            self.signature@,
            SigningDomain::Calibration,
            self.bytes(),
        )
    }

    /// The canonical bytes.
    pub fn canonical_bytes(&self) -> (r: Vec<u8>)
        ensures
            r@ == self.bytes(),
    {
        let until: Option<&str> = match &self.valid_to {
            Some(t) => Some(t.as_str()),
            None => None,
        };
        calibration_payload(
            self.device_under_test.as_str(),
            self.measurand.as_str(),
            self.result.as_str(),
            self.uncertainty.as_str(),
            self.unit.as_str(),
            self.valid_from.as_str(),
            until,
            self.laboratory.as_str(),
        )
    }

    /// The digest of the canonical bytes.
    pub fn digest(&self) -> (r: [u8; 32])
        ensures
            r@ == sha256_of(self.bytes()),
    {
        let bytes = self.canonical_bytes();
        sha256(bytes.as_slice()).0
    }

    /// The laboratory signs a certificate.
    pub fn issue(
        device_under_test: &str,
        measurand: &str,
        result: &str,
        uncertainty: &str,
        unit: &str,
        valid_from: &str,
        valid_to: Option<&str>,
        laboratory: &str,
        lab_key: &KeyPair,
    ) -> (r: Result<CalibrationCertificate, SignatifError>)
        ensures
            r is Ok == lab_key.slot(
                SigningDomain::Calibration,
                calibration_bytes(
                    device_under_test@,
                    measurand@,
                    result@,
                    uncertainty@,
                    unit@,
                    valid_from@,
                    option_str(valid_to),
                    laboratory@,
                ),
            ) is Some,
            r matches Ok(c) ==> c.device_under_test@ == device_under_test@ && c.measurand@
                == measurand@ && c.result@ == result@ && c.uncertainty@ == uncertainty@ && c.unit@
                == unit@ && c.valid_from@ == valid_from@ && crate::canon::option_text(c.valid_to)
                == option_str(valid_to) && c.laboratory@ == laboratory@ && issued(
                *lab_key,
                SigningDomain::Calibration,
                c.bytes(),
                c.signature@,
            ),
            r matches Err(e) ==> e@ == signing_error(),
    {
        let payload = calibration_payload(
            device_under_test,
            measurand,
            result,
            uncertainty,
            unit,
            valid_from,
            valid_to,
            laboratory,
        );
        match SignatureSlot::sign(lab_key, SigningDomain::Calibration, payload.as_slice()) {
            Err(e) => Err(e),
            Ok(signature) => Ok(
                CalibrationCertificate {
                    device_under_test: device_under_test.to_owned(),
                    measurand: measurand.to_owned(),
                    result: result.to_owned(),
                    uncertainty: uncertainty.to_owned(),
                    unit: unit.to_owned(),
                    valid_from: valid_from.to_owned(),
                    valid_to: match valid_to {
                        Some(t) => Some(t.to_owned()),
                        None => None,
                    },
                    laboratory: laboratory.to_owned(),
                    signature,
                },
            ),
        }
    }

    /// Checks the signature under the laboratory's registered key.
    pub fn verify(&self, graph: &TrustGraph) -> (r: Result<(), SignatifError>)
        ensures
            match self.check(graph@) {
                Ok(_) => r is Ok,
                Err(f) => r matches Err(e) && e@ == f,
            },
    {
        let missing = cat3(
            "calibration laboratory `",
            self.laboratory.as_str(),
            "` has no such key",
        );
        let payload = self.canonical_bytes();
        match check_signer(
            graph,
            self.laboratory.as_str(),
            "calibration laboratory: ",
            missing.as_str(),
            &self.signature,
            SigningDomain::Calibration,
            payload.as_slice(),
        ) {
            Err(e) => Err(e),
            Ok(_) => Ok(()),
        }
    }
}

/// A certified chain, from the root to the instance.
#[derive(Debug, Clone, PartialEq, Eq)]
pub struct CertifiedChain {
    /// The nodes by tier.
    pub nodes: Vec<(HierarchyTier, String)>,
    /// The links between them.
    pub links: Vec<ChainLink>,
}

/// What is wrong with the link at a position under its parent for an act: its
/// signature, its scope, or a condition of its scope.
#[verifier::opaque]
pub open spec fn link_error(
    link: ChainLink,
    position: int,
    parent: Seq<char>,
    act: RequestView,
    graph: GraphView,
) -> Option<ErrorView> {
    match link.check(parent, graph) {
        Err(e) => Some(e),
        Ok(_) => if !link.scope@.matches(act) {
            Some(
                ErrorView::ScopeViolation(
                    "certified chain: link "@ + decimal((position + 1) as nat) + " (`"@
                        + link.from.spec_token() + "` → `"@ + link.to.spec_token()
                        + "`) does not admit the act — out-of-scope delegation rejected at use time"@,
                ),
            )
        } else {
            match first_failing(link.scope@.conditions, act) {
                Some(i) => Some(
                    ErrorView::ScopeViolation(
                        "certified chain: link "@ + decimal((position + 1) as nat)
                            + " fails its condition `"@ + link.scope@.conditions[i].label()
                            + "` at use time"@,
                    ),
                ),
                None => None,
            }
        },
    }
}

fn check_link(
    link: &ChainLink,
    position: usize,
    parent: &str,
    act: &ScopeRequest,
    graph: &TrustGraph,
) -> (r: Result<(), SignatifError>)
    requires
        position < usize::MAX,
    ensures
        match link_error(*link, position as int, parent@, act@, graph@) {
            None => r is Ok,
            Some(f) => r matches Err(e) && e@ == f,
        },
{
    reveal(link_error);
    if let Err(e) = link.verify_signed_by(parent, graph) {
        return Err(e);
    }
    let place = count(position + 1);
    if !link.scope.matches(act) {
        return Err(
            SignatifError::ScopeViolation(
                cat7(
                    "certified chain: link ",
                    place.as_str(),
                    " (`",
                    link.from.token(),
                    "` → `",
                    link.to.token(),
                    "`) does not admit the act — out-of-scope delegation rejected at use time",
                ),
            ),
        );
    }
    if let Err(c) = link.scope.check_conditions(act) {
        return Err(
            SignatifError::ScopeViolation(
                cat5(
                    "certified chain: link ",
                    place.as_str(),
                    " fails its condition `",
                    c.label(),
                    "` at use time",
                ),
            ),
        );
    }
    Ok(())
}

impl CertifiedChain {
    /// The errors of the first `n` links for an act.
    pub open spec fn link_errors(self, n: int, act: RequestView, graph: GraphView) -> Seq<
        Option<ErrorView>,
    > {
        Seq::new(
            n as nat,
            |i: int| link_error(self.links@[i], i, self.nodes@[i].1@, act, graph),
        )
    }

    /// Whether the chain admits an act: every link must be signed by its parent
    /// and admit the act with all conditions. The first link that does not is
    /// the error.
    pub fn admits(&self, act: &ScopeRequest, graph: &TrustGraph) -> (r: Result<(), SignatifError>)
        requires
            self.links@.len() <= self.nodes@.len() || first_error(
                self.link_errors(self.nodes@.len() as int, act@, graph@),
            ) is Some,
        ensures
            match first_error(
                self.link_errors(
                    if self.links@.len() <= self.nodes@.len() {
                        self.links@.len() as int
                    } else {
                        self.nodes@.len() as int
                    },
                    act@,
                    graph@,
                ),
            ) {
                None => r is Ok,
                Some(f) => r matches Err(e) && e@ == f,
            },
    {
        let n: usize = if self.links.len() <= self.nodes.len() {
            self.links.len()
        } else {
            self.nodes.len()
        };
        let ghost all = self.link_errors(n as int, act@, graph@);
        let mut i: usize = 0;
        assert(all.take(0) =~= Seq::<Option<ErrorView>>::empty());
        while i < n
            invariant
                i <= n,
                n == (if self.links@.len() <= self.nodes@.len() {
                    self.links@.len()
                } else {
                    self.nodes@.len()
                }),
                all == self.link_errors(n as int, act@, graph@),
                first_error(all.take(i as int)) is None,
            decreases n - i,
        {
            let link = &self.links[i];
            let parent = &self.nodes[i].1;
            proof {
                assert(all.take(i + 1).drop_last() =~= all.take(i as int));
                assert(all.take(i + 1).last() == link_error(
                    *link,
                    i as int,
                    parent@,
                    act@,
                    graph@,
                ));
            }
            if let Err(e) = check_link(link, i, parent.as_str(), act, graph) {
                proof {
                    crate::lemma_first_error(all, i + 1);
                }
                return Err(e);
            }
            i += 1;
        }
        assert(all.take(i as int) =~= all);
        Ok(())
    }
}

/// A chain admits an act only if every link does: signed by its parent, with
/// the act in its scope and all conditions of the scope met.
pub proof fn every_link_admits(
    chain: CertifiedChain,
    act: RequestView,
    graph: GraphView,
    i: int,
)
    requires
        chain.links@.len() <= chain.nodes@.len(),
        first_error(chain.link_errors(chain.links@.len() as int, act, graph)) is None,
        0 <= i < chain.links@.len(),
    ensures
        chain.links@[i].check(chain.nodes@[i].1@, graph) is Ok,
        chain.links@[i].scope@.matches(act),
        first_failing(chain.links@[i].scope@.conditions, act) is None,
{
    reveal(link_error);
    crate::lemma_no_error(chain.link_errors(chain.links@.len() as int, act, graph), i);
}

/// A link that the parent issued verifies wherever the parent's key is
/// registered.
pub proof fn issued_links_verify(link: ChainLink, parent: Seq<char>, key: KeyPair, graph: GraphView)
    requires
        issued(key, SigningDomain::Delegation, link.bytes(), link.signature@),
        registered(graph, parent, key),
    ensures
        link.check(parent, graph) is Ok,
{
}

/// A calibration that the laboratory issued verifies wherever the laboratory's
/// key is registered.
pub proof fn issued_calibrations_verify(c: CalibrationCertificate, key: KeyPair, graph: GraphView)
    requires
        issued(key, SigningDomain::Calibration, c.bytes(), c.signature@),
        registered(graph, c.laboratory@, key),
    ensures
        c.check(graph) is Ok,
{
}

} // verus!
