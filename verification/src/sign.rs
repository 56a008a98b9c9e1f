//! The signature layer: suites, signing domains and signature slots.

use vstd::prelude::*;

use crate::bytes::{append, copied, same_bytes, utf8};
use crate::canon::{fields, split_fields, CanonicalReader, CanonicalWriter};
use crate::graph::KeyDirectory;
use crate::keyring::{is_key_id, key_id_of, raw_verdict, KeyId, KeyPair, KeyView, PublicKey};
use crate::signer::{all_issued, issued};
use crate::text::{
    cat3, cat4, cat5, cat6, count, decimal, lower_all, lowered, quote, quoted, same_text, trim,
    trimmed,
};
use crate::{ErrorView, SignatifError};

verus! {

/// The signature suites. Ed25519 and ECDSA-P256 are computed here; the others
/// are framed only.
#[derive(Debug, Clone, Copy, PartialEq, Eq, Hash, PartialOrd, Ord, Structural)]
pub enum Suite {
    /// Ed25519.
    Ed25519,
    /// ECDSA over P-256, `r || s`.
    EcdsaP256,
    /// SM2.
    Sm2,
    /// ML-DSA-44.
    MlDsa44,
    /// ML-DSA-65.
    MlDsa65,
    /// ML-DSA-87.
    MlDsa87,
    /// SLH-DSA-SHA2-128s.
    SlhDsa128s,
    /// SLH-DSA-SHA2-192s.
    SlhDsa192s,
}

/// The suites that have a slot on the carrier.
#[derive(Debug, Clone, Copy, PartialEq, Eq, Hash, PartialOrd, Ord, Structural)]
pub enum SignatureSuite {
    /// ECDSA over P-256.
    EcdsaP256,
    /// SM2.
    Sm2,
    /// ML-DSA-44.
    MlDsa44,
    /// ML-DSA-65.
    MlDsa65,
    /// ML-DSA-87.
    MlDsa87,
}

impl SignatureSuite {
    /// The carrier suites in the order of their codes.
    pub const ALL: [SignatureSuite; 5] = [
        SignatureSuite::EcdsaP256,
        SignatureSuite::Sm2,
        SignatureSuite::MlDsa44,
        SignatureSuite::MlDsa65,
        SignatureSuite::MlDsa87,
    ];
}

/// Why SM2 is not computed here.
pub const SM2_DEFERRAL: &'static str = "SM2 computation requires a GM/T 0003 binding crate; SIGNATIF carries the core's framing (64-byte r||s slots) and refuses to fake verification";

/// Why ML-DSA is not computed here.
pub const ML_DSA_DEFERRAL: &'static str = "ML-DSA (FIPS 204) computation requires a PQ binding crate; SIGNATIF carries the core's framing and budget math only";

/// Why SLH-DSA is not supported here.
pub const SLH_DSA_UNSUPPORTED: &'static str = "SLH-DSA (FIPS 205) computation requires the `slh-dsa` crate feature; enable it to activate the (currently stubbed) SLH-DSA path";

/// A text without hyphens and underscores.
pub open spec fn without_separators(s: Seq<char>) -> Seq<char>
    decreases s.len(),
{
    if s.len() == 0 {
        s
    } else if s.last() == '-' || s.last() == '_' {
        without_separators(s.drop_last())
    } else {
        without_separators(s.drop_last()).push(s.last())
    }
}

/// The form in which suite tokens are compared.
pub open spec fn squashed(s: Seq<char>) -> Seq<char> {
    without_separators(lowered(trimmed(s)))
}

/// The suite that a text names, whatever its case and separators.
pub open spec fn suite_of_token(s: Seq<char>) -> Option<Suite> {
    let t = squashed(s);
    if t == "ed25519"@ {
        Some(Suite::Ed25519)
    } else if t == "ecdsap256"@ {
        Some(Suite::EcdsaP256)
    } else if t == "sm2"@ {
        Some(Suite::Sm2)
    } else if t == "mldsa44"@ {
        Some(Suite::MlDsa44)
    } else if t == "mldsa65"@ {
        Some(Suite::MlDsa65)
    } else if t == "mldsa87"@ {
        Some(Suite::MlDsa87)
    } else if t == "slhdsa128s"@ {
        Some(Suite::SlhDsa128s)
    } else if t == "slhdsa192s"@ {
        Some(Suite::SlhDsa192s)
    } else {
        None
    }
}

pub(crate) fn squash(s: &str) -> (r: String)
    ensures
        r@ == squashed(s@),
{
    let t = lower_all(trim(s).as_slice());
    let mut out = String::new();
    let mut i: usize = 0;
    assert(out@ =~= t@.take(0));
    while i < t.len()
        invariant
            i <= t.len(),
            out@ == without_separators(t@.take(i as int)),
        decreases t.len() - i,
    {
        assert(t@.take(i + 1).drop_last() == t@.take(i as int));
        if t[i] != '-' && t[i] != '_' {
            out.push(t[i]);
        }
        i += 1;
    }
    assert(t@.take(i as int) == t@);
    out
}

impl Suite {
    /// All suites, in canonical order.
    pub const ALL: [Suite; 8] = [
        Suite::Ed25519,
        Suite::EcdsaP256,
        Suite::Sm2,
        Suite::MlDsa44,
        Suite::MlDsa65,
        Suite::MlDsa87,
        Suite::SlhDsa128s,
        Suite::SlhDsa192s,
    ];

    /// The token of the suite.
    pub open spec fn token(self) -> Seq<char> {
        match self {
            Suite::Ed25519 => "ed25519"@,
            Suite::EcdsaP256 => "ecdsa-p256"@,
            Suite::Sm2 => "sm2"@,
            Suite::MlDsa44 => "ml-dsa-44"@,
            Suite::MlDsa65 => "ml-dsa-65"@,
            Suite::MlDsa87 => "ml-dsa-87"@,
            Suite::SlhDsa128s => "slh-dsa-128s"@,
            Suite::SlhDsa192s => "slh-dsa-192s"@,
        }
    }

    /// Whether the suite is computed here.
    pub open spec fn computed(self) -> bool {
        self == Suite::Ed25519 || self == Suite::EcdsaP256
    }

    /// The position in canonical order.
    pub open spec fn rank(self) -> int {
        match self {
            Suite::Ed25519 => 0,
            Suite::EcdsaP256 => 1,
            Suite::Sm2 => 2,
            Suite::MlDsa44 => 3,
            Suite::MlDsa65 => 4,
            Suite::MlDsa87 => 5,
            Suite::SlhDsa128s => 6,
            Suite::SlhDsa192s => 7,
        }
    }

    /// The one-byte code.
    pub open spec fn spec_code(self) -> u8 {
        match self {
            Suite::EcdsaP256 => 1,
            Suite::Sm2 => 2,
            Suite::MlDsa44 => 3,
            Suite::MlDsa65 => 4,
            Suite::MlDsa87 => 5,
            Suite::Ed25519 => 6,
            Suite::SlhDsa128s => 7,
            Suite::SlhDsa192s => 8,
        }
    }

    /// The length of a signature.
    pub open spec fn spec_signature_len(self) -> nat {
        match self {
            Suite::Ed25519 => 64,
            Suite::EcdsaP256 => 64,
            Suite::Sm2 => 64,
            Suite::MlDsa44 => 2420,
            Suite::MlDsa65 => 3309,
            Suite::MlDsa87 => 4627,
            Suite::SlhDsa128s => 7856,
            Suite::SlhDsa192s => 16224,
        }
    }

    /// The error with which a suite that is not computed is refused.
    pub open spec fn refusal(self) -> Option<ErrorView> {
        match self {
            Suite::Ed25519 => None,
            Suite::EcdsaP256 => None,
            Suite::Sm2 => Some(
                ErrorView::SuiteDeferred { suite: self.token(), detail: SM2_DEFERRAL@ },
            ),
            Suite::MlDsa44 | Suite::MlDsa65 | Suite::MlDsa87 => Some(
                ErrorView::SuiteDeferred { suite: self.token(), detail: ML_DSA_DEFERRAL@ },
            ),
            Suite::SlhDsa128s | Suite::SlhDsa192s => Some(
                ErrorView::Unsupported { suite: self.token(), detail: SLH_DSA_UNSUPPORTED@ },
            ),
        }
    }

    /// The token of the suite.
    pub fn as_str(self) -> (r: &'static str)
        ensures
            r@ == self.token(),
    {
        match self {
            Suite::Ed25519 => "ed25519",
            Suite::EcdsaP256 => "ecdsa-p256",
            Suite::Sm2 => "sm2",
            Suite::MlDsa44 => "ml-dsa-44",
            Suite::MlDsa65 => "ml-dsa-65",
            Suite::MlDsa87 => "ml-dsa-87",
            Suite::SlhDsa128s => "slh-dsa-128s",
            Suite::SlhDsa192s => "slh-dsa-192s",
        }
    }

    /// The token of the suite.
    pub fn to_string(&self) -> (r: String)
        ensures
            r@ == self.token(),
    {
        self.as_str().to_owned()
    }

    /// Reads a suite token, whatever its case and separators.
    pub fn parse_token(s: &str) -> (r: Result<Suite, SignatifError>)
        ensures
            r is Ok == suite_of_token(s@) is Some,
            r matches Ok(suite) ==> Some(suite) == suite_of_token(s@),
            r matches Err(e) ==> e@ == ErrorView::Validation("unknown suite `"@ + s@ + "`"@),
    {
        let text = squash(s);
        let t = text.as_str();
        if same_text(t, "ed25519") {
            Ok(Suite::Ed25519)
        } else if same_text(t, "ecdsap256") {
            Ok(Suite::EcdsaP256)
        } else if same_text(t, "sm2") {
            Ok(Suite::Sm2)
        } else if same_text(t, "mldsa44") {
            Ok(Suite::MlDsa44)
        } else if same_text(t, "mldsa65") {
            Ok(Suite::MlDsa65)
        } else if same_text(t, "mldsa87") {
            Ok(Suite::MlDsa87)
        } else if same_text(t, "slhdsa128s") {
            Ok(Suite::SlhDsa128s)
        } else if same_text(t, "slhdsa192s") {
            Ok(Suite::SlhDsa192s)
        } else {
            Err(SignatifError::Validation(cat3("unknown suite `", s, "`")))
        }
    }

    /// The carrier suite, if the suite has one.
    pub open spec fn carrier(self) -> Option<SignatureSuite> {
        match self {
            Suite::EcdsaP256 => Some(SignatureSuite::EcdsaP256),
            Suite::Sm2 => Some(SignatureSuite::Sm2),
            Suite::MlDsa44 => Some(SignatureSuite::MlDsa44),
            Suite::MlDsa65 => Some(SignatureSuite::MlDsa65),
            Suite::MlDsa87 => Some(SignatureSuite::MlDsa87),
            Suite::Ed25519 | Suite::SlhDsa128s | Suite::SlhDsa192s => None,
        }
    }

    /// The suite of a carrier suite.
    pub open spec fn of_carrier(core: SignatureSuite) -> Suite {
        match core {
            SignatureSuite::EcdsaP256 => Suite::EcdsaP256,
            SignatureSuite::Sm2 => Suite::Sm2,
            SignatureSuite::MlDsa44 => Suite::MlDsa44,
            SignatureSuite::MlDsa65 => Suite::MlDsa65,
            SignatureSuite::MlDsa87 => Suite::MlDsa87,
        }
    }

    /// The carrier suite, if the suite has one.
    pub fn to_core(self) -> (r: Option<SignatureSuite>)
        ensures
            r == self.carrier(),
    {
        match self {
            Suite::EcdsaP256 => Some(SignatureSuite::EcdsaP256),
            Suite::Sm2 => Some(SignatureSuite::Sm2),
            Suite::MlDsa44 => Some(SignatureSuite::MlDsa44),
            Suite::MlDsa65 => Some(SignatureSuite::MlDsa65),
            Suite::MlDsa87 => Some(SignatureSuite::MlDsa87),
            Suite::Ed25519 | Suite::SlhDsa128s | Suite::SlhDsa192s => None,
        }
    }

    /// The suite of a carrier suite.
    pub fn from_core(core: SignatureSuite) -> (r: Suite)
        ensures
            r == Suite::of_carrier(core),
            r.carrier() == Some(core),
    {
        match core {
            SignatureSuite::EcdsaP256 => Suite::EcdsaP256,
            SignatureSuite::Sm2 => Suite::Sm2,
            SignatureSuite::MlDsa44 => Suite::MlDsa44,
            SignatureSuite::MlDsa65 => Suite::MlDsa65,
            SignatureSuite::MlDsa87 => Suite::MlDsa87,
        }
    }

    /// Whether the suite is computed here.
    pub fn is_computed(self) -> (r: bool)
        ensures
            r == self.computed(),
            r == (self.refusal() is None),
    {
        match self {
            Suite::Ed25519 | Suite::EcdsaP256 => true,
            _ => false,
        }
    }

    /// Whether the suite is a post-quantum algorithm.
    pub open spec fn post_quantum(self) -> bool {
        3 <= self.rank()
    }

    /// Whether the suite is a post-quantum algorithm.
    pub fn is_post_quantum(self) -> (r: bool)
        ensures
            r == self.post_quantum(),
    {
        match self {
            Suite::Ed25519 | Suite::EcdsaP256 | Suite::Sm2 => false,
            _ => true,
        }
    }

    /// The length of a signature.
    pub fn signature_len(self) -> (r: usize)
        ensures
            r == self.spec_signature_len(),
    {
        match self {
            Suite::Ed25519 => 64,
            Suite::EcdsaP256 => 64,
            Suite::Sm2 => 64,
            Suite::MlDsa44 => 2420,
            Suite::MlDsa65 => 3309,
            Suite::MlDsa87 => 4627,
            Suite::SlhDsa128s => 7856,
            Suite::SlhDsa192s => 16224,
        }
    }

    /// The one-byte code.
    pub fn code(self) -> (r: u8)
        ensures
            r == self.spec_code(),
    {
        match self {
            Suite::EcdsaP256 => 1,
            Suite::Sm2 => 2,
            Suite::MlDsa44 => 3,
            Suite::MlDsa65 => 4,
            Suite::MlDsa87 => 5,
            Suite::Ed25519 => 6,
            Suite::SlhDsa128s => 7,
            Suite::SlhDsa192s => 8,
        }
    }

    /// Where a suite that is only framed is computed.
    pub fn deferral(self) -> (r: Option<&'static str>)
        ensures
            match self.refusal() {
                Some(ErrorView::SuiteDeferred { detail, .. }) => r matches Some(d) && d@ == detail,
                _ => r is None,
            },
    {
        match self {
            Suite::Sm2 => Some(SM2_DEFERRAL),
            Suite::MlDsa44 | Suite::MlDsa65 | Suite::MlDsa87 => Some(ML_DSA_DEFERRAL),
            _ => None,
        }
    }

    /// Why a suite is not supported at all.
    pub fn unsupported(self) -> (r: Option<&'static str>)
        ensures
            match self.refusal() {
                Some(ErrorView::Unsupported { detail, .. }) => r matches Some(d) && d@ == detail,
                _ => r is None,
            },
    {
        match self {
            Suite::SlhDsa128s | Suite::SlhDsa192s => Some(SLH_DSA_UNSUPPORTED),
            _ => None,
        }
    }

    /// The error with which a suite that is not computed is refused.
    pub fn refuse(self) -> (r: Option<SignatifError>)
        ensures
            r is Some == self.refusal() is Some,
            r matches Some(e) ==> Some(e@) == self.refusal(),
    {
        if let Some(detail) = self.unsupported() {
            return Some(
                SignatifError::Unsupported {
                    suite: self.to_string(),
                    detail: detail.to_owned(),
                },
            );
        }
        if let Some(detail) = self.deferral() {
            return Some(
                SignatifError::SuiteDeferred {
                    suite: self.to_string(),
                    detail: detail.to_owned(),
                },
            );
        }
        None
    }
}

impl std::str::FromStr for Suite {
    type Err = SignatifError;

    fn from_str(s: &str) -> (r: Result<Suite, SignatifError>)
        ensures
            r is Ok == suite_of_token(s@) is Some,
            r matches Ok(suite) ==> Some(suite) == suite_of_token(s@),
            r matches Err(e) ==> e@ == ErrorView::Validation("unknown suite `"@ + s@ + "`"@),
    {
        Suite::parse_token(s)
    }
}

/// Each suite is read back from its token.
pub proof fn suite_tokens_parse_back(suite: Suite)
    ensures
        suite_of_token(suite.token()) == Some(suite),
{
    reveal_strlit("ed25519");
    reveal_strlit("ecdsa-p256");
    reveal_strlit("sm2");
    reveal_strlit("ml-dsa-44");
    reveal_strlit("ml-dsa-65");
    reveal_strlit("ml-dsa-87");
    reveal_strlit("slh-dsa-128s");
    reveal_strlit("slh-dsa-192s");
    reveal_strlit("ecdsap256");
    reveal_strlit("mldsa44");
    reveal_strlit("mldsa65");
    reveal_strlit("mldsa87");
    reveal_strlit("slhdsa128s");
    reveal_strlit("slhdsa192s");
    reveal_with_fuel(without_separators, 14);
    assert("ed25519"@[0] != "mldsa44"@[0]);
    assert("ed25519"@[0] != "mldsa65"@[0]);
    assert("ed25519"@[0] != "mldsa87"@[0]);
    assert("mldsa44"@[5] != "mldsa65"@[5]);
    assert("mldsa44"@[5] != "mldsa87"@[5]);
    assert("mldsa65"@[5] != "mldsa87"@[5]);
    assert("slhdsa128s"@[7] != "slhdsa192s"@[7]);
    assert("ed25519"@.len() == 7 && "ecdsap256"@.len() == 9 && "sm2"@.len() == 3);
    assert("mldsa44"@.len() == 7 && "mldsa65"@.len() == 7 && "mldsa87"@.len() == 7);
    assert("slhdsa128s"@.len() == 10 && "slhdsa192s"@.len() == 10);
    let t = suite.token();
    assert(trimmed(t) == t);
    assert(lowered(t) =~= t);
    let s = squashed(t);
    match suite {
        Suite::Ed25519 => {
            assert(s =~= "ed25519"@);
        },
        Suite::EcdsaP256 => {
            assert(s =~= "ecdsap256"@);
        },
        Suite::Sm2 => {
            assert(s =~= "sm2"@);
        },
        Suite::MlDsa44 => {
            assert(s =~= "mldsa44"@);
        },
        Suite::MlDsa65 => {
            assert(s =~= "mldsa65"@);
        },
        Suite::MlDsa87 => {
            assert(s =~= "mldsa87"@);
        },
        Suite::SlhDsa128s => {
            assert(s =~= "slhdsa128s"@);
        },
        Suite::SlhDsa192s => {
            assert(s =~= "slhdsa192s"@);
        },
    }
}

/// A set of suites.
#[derive(Debug, Clone, Copy, PartialEq, Eq)]
pub struct SuiteSet {
    has: [bool; 8],
}

impl View for SuiteSet {
    type V = Set<Suite>;

    closed spec fn view(&self) -> Set<Suite> {
        Set::new(|s: Suite| self.has@[s.rank()])
    }
}

/// The members of a set of suites among the first `n` suites, in canonical
/// order.
pub open spec fn suites_in_order(set: Set<Suite>, n: int) -> Seq<Suite>
    decreases n,
{
    if n <= 0 {
        Seq::empty()
    } else {
        let front = suites_in_order(set, n - 1);
        if set.contains(Suite::ALL@[n - 1]) {
            front.push(Suite::ALL@[n - 1])
        } else {
            front
        }
    }
}

impl SuiteSet {
    /// The members in canonical order.
    pub open spec fn members(self) -> Seq<Suite> {
        suites_in_order(self@, 8)
    }

    /// The empty set.
    pub fn new() -> (r: SuiteSet)
        ensures
            r@ == Set::<Suite>::empty(),
    {
        let r = SuiteSet { has: [false; 8] };
        assert(r@ =~= Set::<Suite>::empty());
        r
    }

    /// The set of the given suites.
    pub fn of(suites: &[Suite]) -> (r: SuiteSet)
        ensures
            r@ == suites@.to_set(),
    {
        let mut r = SuiteSet::new();
        let mut i: usize = 0;
        assert(suites@.take(0).to_set() =~= Set::<Suite>::empty());
        while i < suites.len()
            invariant
                i <= suites.len(),
                r@ == suites@.take(i as int).to_set(),
            decreases suites.len() - i,
        {
            proof {
                assert(suites@.take(i + 1) =~= suites@.take(i as int).push(suites@[i as int]));
                crate::sets::lemma_push_to_set(suites@.take(i as int), suites@[i as int]);
            }
            r.insert(suites[i]);
            i += 1;
        }
        assert(suites@.take(i as int) =~= suites@);
        r
    }

    /// Whether a suite is a member.
    pub fn contains(&self, suite: Suite) -> (r: bool)
        ensures
            r == self@.contains(suite),
    {
        self.has[suite.position()]
    }

    /// Adds a suite.
    pub fn insert(&mut self, suite: Suite)
        ensures
            final(self)@ == old(self)@.insert(suite),
    {
        let i = suite.position();
        self.has[i] = true;
        assert forall|s: Suite| self@.contains(s) == old(self)@.insert(suite).contains(s) by {
            assert(s.rank() == suite.rank() ==> s == suite);
        }
        assert(self@ =~= old(self)@.insert(suite));
    }

    /// The suites that both sets have.
    pub fn intersection(&self, other: &SuiteSet) -> (r: SuiteSet)
        ensures
            r@ == self@.intersect(other@),
    {
        let mut r = SuiteSet::new();
        let mut i: usize = 0;
        while i < 8
            invariant
                i <= 8,
                forall|s: Suite| #[trigger]
                    r@.contains(s) == (s.rank() < i && self@.contains(s) && other@.contains(s)),
            decreases 8 - i,
        {
            let suite = Suite::ALL[i];
            proof {
                lemma_all_ranks();
                assert(suite.rank() == i);
            }
            if self.contains(suite) && other.contains(suite) {
                r.insert(suite);
            }
            assert forall|s: Suite| #[trigger] r@.contains(s) == (s.rank() < i + 1 && self@.contains(
                s,
            ) && other@.contains(s)) by {
                assert(s.rank() == suite.rank() ==> s == suite);
            }
            i += 1;
        }
        assert(r@ =~= self@.intersect(other@));
        r
    }

    /// The suites that either set has.
    pub fn union(&self, other: &SuiteSet) -> (r: SuiteSet)
        ensures
            r@ == self@.union(other@),
    {
        let mut r = *self;
        let mut i: usize = 0;
        while i < 8
            invariant
                i <= 8,
                forall|s: Suite| #[trigger]
                    r@.contains(s) == (self@.contains(s) || (s.rank() < i && other@.contains(s))),
            decreases 8 - i,
        {
            let suite = Suite::ALL[i];
            proof {
                lemma_all_ranks();
                assert(suite.rank() == i);
            }
            if other.contains(suite) {
                r.insert(suite);
            }
            assert forall|s: Suite| #[trigger] r@.contains(s) == (self@.contains(s) || (s.rank() < i
                + 1 && other@.contains(s))) by {
                assert(s.rank() == suite.rank() ==> s == suite);
            }
            i += 1;
        }
        assert(r@ =~= self@.union(other@));
        r
    }

    /// The members, in canonical order.
    pub fn to_vec(&self) -> (r: Vec<Suite>)
        ensures
            r@ == self.members(),
    {
        let mut out: Vec<Suite> = Vec::new();
        let mut i: usize = 0;
        while i < 8
            invariant
                i <= 8,
                out@ =~= suites_in_order(self@, i as int),
            decreases 8 - i,
        {
            let suite = Suite::ALL[i];
            if self.contains(suite) {
                out.push(suite);
            }
            i += 1;
        }
        out
    }

    /// The number of members.
    pub fn len(&self) -> (r: usize)
        ensures
            r == self.members().len(),
    {
        self.to_vec().len()
    }

    /// Whether there are no members.
    pub fn is_empty(&self) -> (r: bool)
        ensures
            r == (self@ == Set::<Suite>::empty()),
            r == (self.members().len() == 0),
    {
        let n = self.len();
        proof {
            lemma_in_order_members(self@, 8);
            lemma_all_ranks();
            if n == 0 {
                assert forall|s: Suite| !self@.contains(s) by {
                    assert(self@.contains(s) ==> self.members().contains(s));
                }
                assert(self@ =~= Set::<Suite>::empty());
            } else {
                assert(self.members().contains(self.members()[0]));
            }
        }
        n == 0
    }
}

/// The suites stand in the list of all suites at their ranks.
pub proof fn lemma_all_ranks()
    ensures
        forall|s: Suite| 0 <= #[trigger] s.rank() < 8 && Suite::ALL@[s.rank()] == s,
        forall|i: int| 0 <= i < 8 ==> (#[trigger] Suite::ALL@[i]).rank() == i,
{
    assert(Suite::ALL@[0] == Suite::Ed25519);
    assert(Suite::ALL@[1] == Suite::EcdsaP256);
    assert(Suite::ALL@[2] == Suite::Sm2);
    assert(Suite::ALL@[3] == Suite::MlDsa44);
    assert(Suite::ALL@[4] == Suite::MlDsa65);
    assert(Suite::ALL@[5] == Suite::MlDsa87);
    assert(Suite::ALL@[6] == Suite::SlhDsa128s);
    assert(Suite::ALL@[7] == Suite::SlhDsa192s);
}

/// The members in order are the members.
pub proof fn lemma_in_order_members(set: Set<Suite>, n: int)
    requires
        0 <= n <= 8,
    ensures
        forall|s: Suite| #[trigger]
            suites_in_order(set, n).contains(s) == (set.contains(s) && s.rank() < n),
    decreases n,
{
    lemma_all_ranks();
    if n > 0 {
        lemma_in_order_members(set, n - 1);
        let front = suites_in_order(set, n - 1);
        let last = Suite::ALL@[n - 1];
        assert forall|s: Suite| #[trigger] suites_in_order(set, n).contains(s) == (set.contains(s)
            && s.rank() < n) by {
            crate::sets::lemma_push_to_set(front, last);
            assert(front.push(last).to_set().contains(s) == front.push(last).contains(s));
            assert(front.to_set().contains(s) == front.contains(s));
            assert(s.rank() == n - 1 ==> s == last);
        }
    }
}

impl Suite {
    fn position(self) -> (r: usize)
        ensures
            r == self.rank(),
            r < 8,
    {
        match self {
            Suite::Ed25519 => 0,
            Suite::EcdsaP256 => 1,
            Suite::Sm2 => 2,
            Suite::MlDsa44 => 3,
            Suite::MlDsa65 => 4,
            Suite::MlDsa87 => 5,
            Suite::SlhDsa128s => 6,
            Suite::SlhDsa192s => 7,
        }
    }
}

/// What a signature is for. A signature made in one domain does not verify in
/// another.
#[derive(Debug, Clone, Copy, PartialEq, Eq, Hash, Structural)]
pub enum SigningDomain {
    /// An event or payload body.
    ArtifactEvent,
    /// A delegation credential.
    Delegation,
    /// A witness attestation of a master list.
    MasterListWitness,
    /// A signed tree head of a transparency log.
    TreeHead,
    /// A notarized stamp of a historical verification.
    HistoricalStamp,
    /// A quorum attestation.
    Quorum,
    /// A roll-up attestation.
    RollupAttestation,
    /// A segment policy.
    SegmentPolicy,
    /// A spine root.
    SpineRoot,
    /// A signed profile.
    Profile,
    /// A cross-border request or response.
    S13Message,
    /// A sovereign attestation.
    SovereignAttestation,
    /// An accreditation.
    Accreditation,
    /// An interop declaration.
    InteropDeclaration,
    /// A hub's relay statement.
    HubRelay,
    /// A calibration certificate.
    Calibration,
}

impl SigningDomain {
    /// The tag that stands before the payload.
    pub open spec fn spec_tag(self) -> Seq<char> {
        match self {
            SigningDomain::ArtifactEvent => "UNIDPP-SIGNATIF/ARTIFACT-EVENT"@,
            SigningDomain::Delegation => "UNIDPP-SIGNATIF/DELEGATION"@,
            SigningDomain::MasterListWitness => "UNIDPP-SIGNATIF/MASTER-LIST-WITNESS"@,
            SigningDomain::TreeHead => "UNIDPP-SIGNATIF/TREE-HEAD"@,
            SigningDomain::HistoricalStamp => "UNIDPP-SIGNATIF/HISTORICAL-STAMP"@,
            SigningDomain::Quorum => "UNIDPP-SIGNATIF/QUORUM"@,
            SigningDomain::SegmentPolicy => "UNIDPP-SIGNATIF/SEGMENT-POLICY"@,
            SigningDomain::SpineRoot => "UNIDPP-SIGNATIF/SPINE-ROOT"@,
            SigningDomain::Profile => "UNIDPP-SIGNATIF/PROFILE"@,
            SigningDomain::S13Message => "UNIDPP-SIGNATIF/S13-MESSAGE"@,
            SigningDomain::SovereignAttestation => "UNIDPP-SIGNATIF/SOVEREIGN-ATTESTATION"@,
            SigningDomain::RollupAttestation => "UNIDPP-SIGNATIF/ROLLUP-ATTESTATION"@,
            SigningDomain::Accreditation => "UNIDPP-SIGNATIF/ACCREDITATION"@,
            SigningDomain::InteropDeclaration => "UNIDPP-SIGNATIF/INTEROP-DECLARATION"@,
            SigningDomain::HubRelay => "UNIDPP-SIGNATIF/HUB-RELAY"@,
            SigningDomain::Calibration => "UNIDPP-SIGNATIF/CALIBRATION"@,
        }
    }

    /// The tag that stands before the payload.
    pub fn tag(self) -> (r: &'static str)
        ensures
            r@ == self.spec_tag(),
    {
        match self {
            SigningDomain::ArtifactEvent => "UNIDPP-SIGNATIF/ARTIFACT-EVENT",
            SigningDomain::Delegation => "UNIDPP-SIGNATIF/DELEGATION",
            SigningDomain::MasterListWitness => "UNIDPP-SIGNATIF/MASTER-LIST-WITNESS",
            SigningDomain::TreeHead => "UNIDPP-SIGNATIF/TREE-HEAD",
            SigningDomain::HistoricalStamp => "UNIDPP-SIGNATIF/HISTORICAL-STAMP",
            SigningDomain::Quorum => "UNIDPP-SIGNATIF/QUORUM",
            SigningDomain::SegmentPolicy => "UNIDPP-SIGNATIF/SEGMENT-POLICY",
            SigningDomain::SpineRoot => "UNIDPP-SIGNATIF/SPINE-ROOT",
            SigningDomain::Profile => "UNIDPP-SIGNATIF/PROFILE",
            SigningDomain::S13Message => "UNIDPP-SIGNATIF/S13-MESSAGE",
            SigningDomain::SovereignAttestation => "UNIDPP-SIGNATIF/SOVEREIGN-ATTESTATION",
            SigningDomain::RollupAttestation => "UNIDPP-SIGNATIF/ROLLUP-ATTESTATION",
            SigningDomain::Accreditation => "UNIDPP-SIGNATIF/ACCREDITATION",
            SigningDomain::InteropDeclaration => "UNIDPP-SIGNATIF/INTEROP-DECLARATION",
            SigningDomain::HubRelay => "UNIDPP-SIGNATIF/HUB-RELAY",
            SigningDomain::Calibration => "UNIDPP-SIGNATIF/CALIBRATION",
        }
    }
}

/// The bytes signed for a payload in a domain: the tag, a zero byte, the
/// payload.
pub open spec fn framed(domain: SigningDomain, payload: Seq<u8>) -> Seq<u8> {
    utf8(domain.spec_tag()) + seq![0u8] + payload
}

/// The bytes signed for a payload in a domain.
pub fn domain_framed(domain: SigningDomain, payload: &[u8]) -> (r: Vec<u8>)
    ensures
        r@ == framed(domain, payload@),
{
    let mut out = copied(domain.tag().as_bytes());
    out.push(0);
    append(&mut out, payload);
    assert(out@ =~= framed(domain, payload@));
    out
}

/// Two things that tell the tags apart: the length and the character behind
/// the common prefix.
spec fn tag_key(domain: SigningDomain) -> (int, char) {
    match domain {
        SigningDomain::ArtifactEvent => (30, 'A'),
        SigningDomain::Delegation => (26, 'D'),
        SigningDomain::MasterListWitness => (35, 'M'),
        SigningDomain::TreeHead => (25, 'T'),
        SigningDomain::HistoricalStamp => (32, 'H'),
        SigningDomain::Quorum => (22, 'Q'),
        SigningDomain::SegmentPolicy => (30, 'S'),
        SigningDomain::SpineRoot => (26, 'S'),
        SigningDomain::Profile => (23, 'P'),
        SigningDomain::S13Message => (27, 'S'),
        SigningDomain::SovereignAttestation => (37, 'S'),
        SigningDomain::RollupAttestation => (34, 'R'),
        SigningDomain::Accreditation => (29, 'A'),
        SigningDomain::InteropDeclaration => (35, 'I'),
        SigningDomain::HubRelay => (25, 'H'),
        SigningDomain::Calibration => (27, 'C'),
    }
}

#[verifier::rlimit(50)]
proof fn lemma_tag(domain: SigningDomain)
    ensures
        domain.spec_tag().len() == tag_key(domain).0,
        domain.spec_tag()[16] == tag_key(domain).1,
        forall|i: int|
            0 <= i < domain.spec_tag().len() ==> '\0' < (#[trigger] domain.spec_tag()[i]) && domain.spec_tag()[i] <= '\u{7f}',
{
    match domain {
        SigningDomain::ArtifactEvent => {
            reveal_strlit("UNIDPP-SIGNATIF/ARTIFACT-EVENT");
        },
        SigningDomain::Delegation => {
            reveal_strlit("UNIDPP-SIGNATIF/DELEGATION");
        },
        SigningDomain::MasterListWitness => {
            reveal_strlit("UNIDPP-SIGNATIF/MASTER-LIST-WITNESS");
        },
        SigningDomain::TreeHead => {
            reveal_strlit("UNIDPP-SIGNATIF/TREE-HEAD");
        },
        SigningDomain::HistoricalStamp => {
            reveal_strlit("UNIDPP-SIGNATIF/HISTORICAL-STAMP");
        },
        SigningDomain::Quorum => {
            reveal_strlit("UNIDPP-SIGNATIF/QUORUM");
        },
        SigningDomain::SegmentPolicy => {
            reveal_strlit("UNIDPP-SIGNATIF/SEGMENT-POLICY");
        },
        SigningDomain::SpineRoot => {
            reveal_strlit("UNIDPP-SIGNATIF/SPINE-ROOT");
        },
        SigningDomain::Profile => {
            reveal_strlit("UNIDPP-SIGNATIF/PROFILE");
        },
        SigningDomain::S13Message => {
            reveal_strlit("UNIDPP-SIGNATIF/S13-MESSAGE");
        },
        SigningDomain::SovereignAttestation => {
            reveal_strlit("UNIDPP-SIGNATIF/SOVEREIGN-ATTESTATION");
        },
        SigningDomain::RollupAttestation => {
            reveal_strlit("UNIDPP-SIGNATIF/ROLLUP-ATTESTATION");
        },
        SigningDomain::Accreditation => {
            reveal_strlit("UNIDPP-SIGNATIF/ACCREDITATION");
        },
        SigningDomain::InteropDeclaration => {
            reveal_strlit("UNIDPP-SIGNATIF/INTEROP-DECLARATION");
        },
        SigningDomain::HubRelay => {
            reveal_strlit("UNIDPP-SIGNATIF/HUB-RELAY");
        },
        SigningDomain::Calibration => {
            reveal_strlit("UNIDPP-SIGNATIF/CALIBRATION");
        },
    }
}

/// The bytes signed tell the domain and the payload: two signatures over the
/// same bytes are for the same payload in the same domain.
pub proof fn framing_separates_domains(
    d1: SigningDomain,
    p1: Seq<u8>,
    d2: SigningDomain,
    p2: Seq<u8>,
)
    requires
        framed(d1, p1) == framed(d2, p2),
    ensures
        d1 == d2,
        p1 == p2,
{
    lemma_tag(d1);
    lemma_tag(d2);
    let t1 = d1.spec_tag();
    let t2 = d2.spec_tag();
    vstd::utf8::is_ascii_chars_encode_utf8(t1);
    vstd::utf8::is_ascii_chars_encode_utf8(t2);
    let f1 = framed(d1, p1);
    let f2 = framed(d2, p2);
    let n1 = t1.len() as int;
    let n2 = t2.len() as int;
    assert(f1[n1] == 0 && f2[n2] == 0);
    if n1 < n2 {
        assert(f2[n1] == t2[n1] as u8);
        assert(t2[n1] != '\0');
    } else if n2 < n1 {
        assert(f1[n2] == t1[n2] as u8);
        assert(t1[n2] != '\0');
    }
    assert(f1[16] == t1[16] as u8 && f2[16] == t2[16] as u8);
    assert(tag_key(d1) == tag_key(d2));
    assert(p1 =~= f1.skip(n1 + 1));
    assert(p2 =~= f2.skip(n2 + 1));
}

/// A signature slot as carried on a data carrier.
#[derive(Debug, Clone, PartialEq, Eq)]
pub struct SigSlot {
    /// The suite.
    pub suite: SignatureSuite,
    /// The id of the signing key.
    pub key_id: String,
    /// The signature; `None` when the slot is only framed.
    pub signature: Option<Vec<u8>>,
}

impl SigSlot {
    /// Whether the carrier slot holds a slot.
    pub open spec fn carries(self, slot: SlotView) -> bool {
        &&& slot.suite.carrier() == Some(self.suite)
        &&& self.key_id@ == slot.key_id
        &&& signature_view(self.signature) == slot.signature
    }

    /// A slot without a signature.
    pub fn placeholder(suite: SignatureSuite, key_id: &str) -> (r: SigSlot)
        ensures
            r.suite == suite,
            r.key_id@ == key_id@,
            r.signature is None,
    {
        SigSlot { suite, key_id: key_id.to_owned(), signature: None }
    }
}

/// A signature, the suite it was made with and the key that made it.
#[derive(Debug, PartialEq, Eq)]
pub struct SignatureSlot {
    /// The suite.
    pub suite: Suite,
    /// The id of the signing key.
    pub key_id: KeyId,
    /// The signature; `None` when the slot is only framed.
    pub signature: Option<Vec<u8>>,
}

/// A signature slot as a mathematical value.
#[verifier::ext_equal]
pub struct SlotView {
    /// See [`SignatureSlot::suite`].
    pub suite: Suite,
    /// See [`SignatureSlot::key_id`].
    pub key_id: Seq<char>,
    /// See [`SignatureSlot::signature`].
    pub signature: Option<Seq<u8>>,
}

/// The bytes of an optional signature.
pub open spec fn signature_view(s: Option<Vec<u8>>) -> Option<Seq<u8>> {
    match s {
        Some(v) => Some(v@),
        None => None,
    }
}

impl View for SignatureSlot {
    type V = SlotView;

    open spec fn view(&self) -> SlotView {
        SlotView {
            suite: self.suite,
            key_id: self.key_id@,
            signature: signature_view(self.signature),
        }
    }
}

fn copy_signature(s: &Option<Vec<u8>>) -> (r: Option<Vec<u8>>)
    ensures
        signature_view(r) == signature_view(*s),
{
    match s {
        Some(v) => Some(copied(v.as_slice())),
        None => None,
    }
}

impl Clone for SignatureSlot {
    fn clone(&self) -> (r: SignatureSlot)
        ensures
            r@ == self@,
    {
        SignatureSlot {
            suite: self.suite,
            key_id: self.key_id.clone(),
            signature: copy_signature(&self.signature),
        }
    }
}

impl SlotView {
    /// What checking the slot against a payload under a public key gives.
    pub open spec fn check(self, domain: SigningDomain, payload: Seq<u8>, key: KeyView) -> Result<
        (),
        ErrorView,
    > {
        match self.suite.refusal() {
            Some(e) => Err(e),
            None => if self.suite != key.suite {
                Err(
                    ErrorView::Crypto(
                        "slot suite `"@ + self.suite.token() + "` does not match key suite `"@
                            + key.suite.token() + "`"@,
                    ),
                )
            } else {
                match self.signature {
                    None => Err(ErrorView::Crypto("slot is framed-only (nothing to verify)"@)),
                    Some(sig) => if sig.len() != self.suite.spec_signature_len() {
                        Err(
                            ErrorView::Crypto(
                                "signature length "@ + decimal(sig.len()) + " does not match the "@
                                    + self.suite.token() + " framing budget "@ + decimal(
                                    self.suite.spec_signature_len(),
                                ),
                            ),
                        )
                    } else {
                        raw_verdict(key, framed(domain, payload), sig)
                    },
                }
            },
        }
    }

    /// Whether the slot verifies.
    pub open spec fn verifies(
        self,
        domain: SigningDomain,
        payload: Seq<u8>,
        key: KeyView,
    ) -> bool {
        self.check(domain, payload, key) is Ok
    }
}

impl KeyPair {
    /// The slot that the pair makes over a payload in a domain, if it makes
    /// one.
    pub open spec fn slot(self, domain: SigningDomain, payload: Seq<u8>) -> Option<SlotView> {
        match self.spec_sign(framed(domain, payload)) {
            Some(sig) => Some(
                SlotView {
                    suite: self.spec_suite(),
                    key_id: key_id_of(self.spec_public()),
                    signature: Some(sig),
                },
            ),
            None => None,
        }
    }
}

/// The error when a key cannot sign.
pub open spec fn signing_error() -> ErrorView {
    ErrorView::Crypto("signing failed"@)
}

impl SignatureSlot {
    /// Signs a payload in a domain. The slot verifies for that payload in that
    /// domain under the pair's public key.
    pub fn sign(key: &KeyPair, domain: SigningDomain, payload: &[u8]) -> (r: Result<
        SignatureSlot,
        SignatifError,
    >)
        ensures
            r is Ok == key.slot(domain, payload@) is Some,
            r matches Ok(s) ==> issued(*key, domain, payload@, s@),
            r matches Err(e) ==> e@ == signing_error(),
    {
        key.reveal_parts();
        let bytes = domain_framed(domain, payload);
        match key.sign_raw(bytes.as_slice()) {
            Err(e) => Err(e),
            Ok(value) => Ok(
                SignatureSlot {
                    suite: key.suite(),
                    key_id: key.key_id().clone(),
                    signature: Some(value),
                },
            ),
        }
    }

    /// A slot without a signature.
    pub fn placeholder(suite: Suite, key_id: &KeyId) -> (r: SignatureSlot)
        ensures
            r@ == (SlotView { suite, key_id: key_id@, signature: None }),
    {
        SignatureSlot { suite, key_id: key_id.clone(), signature: None }
    }

    /// Whether the slot has no signature.
    pub fn is_framed_only(&self) -> (r: bool)
        ensures
            r == (self@.signature is None),
    {
        self.signature.is_none()
    }

    /// Checks the slot against a payload in a domain under a public key.
    pub fn verify(&self, domain: SigningDomain, payload: &[u8], public: &PublicKey) -> (r: Result<
        (),
        SignatifError,
    >)
        ensures
            crate::outcome(r) == self@.check(domain, payload@, public@),
    {
        if let Some(e) = self.suite.refuse() {
            return Err(e);
        }
        if self.suite != public.suite() {
            return Err(
                SignatifError::Crypto(
                    cat5(
                        "slot suite `",
                        self.suite.as_str(),
                        "` does not match key suite `",
                        public.suite().as_str(),
                        "`",
                    ),
                ),
            );
        }
        match &self.signature {
            None => Err(SignatifError::crypto("slot is framed-only (nothing to verify)")),
            Some(sig) => {
                if sig.len() != self.suite.signature_len() {
                    let have = count(sig.len());
                    let want = count(self.suite.signature_len());
                    return Err(
                        SignatifError::Crypto(
                            cat6(
                                "signature length ",
                                have.as_str(),
                                " does not match the ",
                                self.suite.as_str(),
                                " framing budget ",
                                want.as_str(),
                            ),
                        ),
                    );
                }
                let bytes = domain_framed(domain, payload);
                KeyPair::verify_raw(public, bytes.as_slice(), sig.as_slice())
            },
        }
    }

    /// The slot as carried on a data carrier; `None` when the suite has no
    /// place there.
    pub fn to_sig_slot(&self) -> (r: Option<SigSlot>)
        ensures
            r is Some == self.suite.carrier() is Some,
            r matches Some(s) ==> s.carries(self@),
    {
        match self.suite.to_core() {
            None => None,
            Some(suite) => Some(
                SigSlot {
                    suite,
                    key_id: self.key_id.to_string(),
                    signature: copy_signature(&self.signature),
                },
            ),
        }
    }

    /// The slot that was carried on a data carrier.
    pub fn from_sig_slot(slot: &SigSlot) -> (r: Result<SignatureSlot, SignatifError>)
        ensures
            r is Ok == is_key_id(trimmed(slot.key_id@)),
            r matches Ok(s) ==> s@ == (SlotView {
                suite: Suite::of_carrier(slot.suite),
                key_id: trimmed(slot.key_id@),
                signature: signature_view(slot.signature),
            }),
            r matches Err(e) ==> e@ == ErrorView::Validation(
                "bad key id `"@ + trimmed(slot.key_id@) + "`"@,
            ),
    {
        match KeyId::new(slot.key_id.as_str()) {
            Err(e) => Err(e),
            Ok(key_id) => Ok(
                SignatureSlot {
                    suite: Suite::from_core(slot.suite),
                    key_id,
                    signature: copy_signature(&slot.signature),
                },
            ),
        }
    }
}

/// What a slot came to when it was checked against a directory of keys.
#[allow(inconsistent_fields)]
#[derive(Debug, Clone, PartialEq, Eq)]
pub enum SlotVerdict {
    /// The signature verified under the registered key.
    Verified {
        /// The suite of the slot.
        suite: Suite,
        /// The key.
        key_id: KeyId,
    },
    /// The signature did not verify.
    Invalid {
        /// The suite of the slot.
        suite: Suite,
        /// The key.
        key_id: KeyId,
        /// Why.
        why: String,
    },
    /// The suite is not computed here.
    Deferred {
        /// The suite of the slot.
        suite: String,
        /// The key.
        key_id: KeyId,
        /// Where it is computed.
        detail: String,
    },
    /// The key is not registered.
    UnknownKey {
        /// The suite of the slot.
        suite: Suite,
        /// The key.
        key_id: KeyId,
    },
}

/// A slot verdict as a mathematical value.
#[allow(inconsistent_fields)]
#[verifier::ext_equal]
pub enum SlotVerdictView {
    /// The signature verifies.
    Verified { suite: Suite, key_id: Seq<char> },
    /// It does not.
    Invalid { suite: Suite, key_id: Seq<char>, why: Seq<char> },
    /// The suite is not computed here.
    Deferred { suite: Seq<char>, key_id: Seq<char>, detail: Seq<char> },
    /// The key is unknown.
    UnknownKey { suite: Suite, key_id: Seq<char> },
}

impl View for SlotVerdict {
    type V = SlotVerdictView;

    open spec fn view(&self) -> SlotVerdictView {
        match self {
            SlotVerdict::Verified { suite, key_id } => SlotVerdictView::Verified {
                suite: *suite,
                key_id: key_id@,
            },
            SlotVerdict::Invalid { suite, key_id, why } => SlotVerdictView::Invalid {
                suite: *suite,
                key_id: key_id@,
                why: why@,
            },
            SlotVerdict::Deferred { suite, key_id, detail } => SlotVerdictView::Deferred {
                suite: suite@,
                key_id: key_id@,
                detail: detail@,
            },
            SlotVerdict::UnknownKey { suite, key_id } => SlotVerdictView::UnknownKey {
                suite: *suite,
                key_id: key_id@,
            },
        }
    }
}

impl SlotVerdict {
    /// Whether the signature verified.
    pub fn is_verified(&self) -> (r: bool)
        ensures
            r == (self@ is Verified),
    {
        match self {
            SlotVerdict::Verified { .. } => true,
            _ => false,
        }
    }
}

/// What a slot comes to when it is checked against a directory of keys.
pub open spec fn slot_verdict(
    slot: SlotView,
    domain: SigningDomain,
    payload: Seq<u8>,
    keys: KeyDirectory,
) -> SlotVerdictView {
    match keys.lookup(slot.key_id) {
        None => SlotVerdictView::UnknownKey { suite: slot.suite, key_id: slot.key_id },
        Some(key) => match slot.check(domain, payload, key) {
            Ok(_) => SlotVerdictView::Verified { suite: slot.suite, key_id: slot.key_id },
            Err(ErrorView::SuiteDeferred { suite, detail }) => SlotVerdictView::Deferred {
                suite,
                key_id: slot.key_id,
                detail,
            },
            Err(ErrorView::Unsupported { suite, detail }) => SlotVerdictView::Deferred {
                suite,
                key_id: slot.key_id,
                detail,
            },
            Err(e) => SlotVerdictView::Invalid {
                suite: slot.suite,
                key_id: slot.key_id,
                why: e.text(),
            },
        },
    }
}

/// The slots of a list as mathematical values.
pub open spec fn slot_views(s: Seq<SignatureSlot>) -> Seq<SlotView> {
    s.map_values(|x: SignatureSlot| x@)
}

/// The verdicts of a list as mathematical values.
pub open spec fn verdict_views(s: Seq<SlotVerdict>) -> Seq<SlotVerdictView> {
    s.map_values(|x: SlotVerdict| x@)
}

/// The verdicts of the slots of a list.
pub open spec fn slot_verdicts(
    slots: Seq<SlotView>,
    domain: SigningDomain,
    payload: Seq<u8>,
    keys: KeyDirectory,
) -> Seq<SlotVerdictView> {
    slots.map_values(|x: SlotView| slot_verdict(x, domain, payload, keys))
}

/// A copy of a list of slots.
pub fn copy_slots(s: &Vec<SignatureSlot>) -> (r: Vec<SignatureSlot>)
    ensures
        slot_views(r@) == slot_views(s@),
{
    let mut out: Vec<SignatureSlot> = Vec::new();
    let mut i: usize = 0;
    while i < s.len()
        invariant
            i <= s.len(),
            slot_views(out@) =~= slot_views(s@).take(i as int),
        decreases s.len() - i,
    {
        let ghost before = slot_views(out@);
        out.push(s[i].clone());
        assert(slot_views(out@) =~= before.push(s@[i as int]@));
        i += 1;
    }
    out
}

fn judge_slots(
    slots: &Vec<SignatureSlot>,
    domain: SigningDomain,
    payload: &[u8],
    keys: &KeyDirectory,
) -> (r: Vec<SlotVerdict>)
    ensures
        verdict_views(r@) == slot_verdicts(slot_views(slots@), domain, payload@, *keys),
{
    let ghost want = slot_verdicts(slot_views(slots@), domain, payload@, *keys);
    let mut out: Vec<SlotVerdict> = Vec::new();
    let mut i: usize = 0;
    while i < slots.len()
        invariant
            i <= slots.len(),
            want == slot_verdicts(slot_views(slots@), domain, payload@, *keys),
            verdict_views(out@) =~= want.take(i as int),
        decreases slots.len() - i,
    {
        let ghost before = verdict_views(out@);
        let v = CoSignature::slot_verdict(&slots[i], domain, payload, keys);
        assert(want[i as int] == v@);
        out.push(v);
        assert(verdict_views(out@) =~= before.push(want[i as int]));
        i += 1;
    }
    out
}

/// A composite signature: one logical signature made by several suites over
/// the same payload. It holds only if every member verifies.
#[derive(Debug, Clone, PartialEq, Eq)]
pub struct CompositeSignature {
    /// The domain of all members.
    pub domain: SigningDomain,
    /// The payload that every member signed.
    pub payload: Vec<u8>,
    /// The member slots.
    pub members: Vec<SignatureSlot>,
}

/// A composite signature as a mathematical value.
#[verifier::ext_equal]
pub struct CompositeView {
    /// See [`CompositeSignature::domain`].
    pub domain: SigningDomain,
    /// See [`CompositeSignature::payload`].
    pub payload: Seq<u8>,
    /// See [`CompositeSignature::members`].
    pub members: Seq<SlotView>,
}

impl View for CompositeSignature {
    type V = CompositeView;

    open spec fn view(&self) -> CompositeView {
        CompositeView {
            domain: self.domain,
            payload: self.payload@,
            members: slot_views(self.members@),
        }
    }
}

impl CompositeView {
    /// The verdicts of the members.
    pub open spec fn verdicts(self, keys: KeyDirectory) -> Seq<SlotVerdictView> {
        slot_verdicts(self.members, self.domain, self.payload, keys)
    }

    /// Whether the composite holds: it has members, and every one verifies.
    pub open spec fn holds(self, keys: KeyDirectory) -> bool {
        self.members.len() > 0 && forall|i: int|
            0 <= i < self.members.len() ==> slot_verdict(
                #[trigger] self.members[i],
                self.domain,
                self.payload,
                keys,
            ) is Verified
    }

    /// The suites of the members.
    pub open spec fn suites(self) -> Set<Suite> {
        self.members.map_values(|m: SlotView| m.suite).to_set()
    }
}

impl CompositeSignature {
    /// A composite without members.
    pub fn new(domain: SigningDomain, payload: &[u8]) -> (r: CompositeSignature)
        ensures
            r@ == (CompositeView { domain, payload: payload@, members: Seq::empty() }),
    {
        let r = CompositeSignature { domain, payload: copied(payload), members: Vec::new() };
        assert(r@.members =~= Seq::<SlotView>::empty());
        r
    }

    /// Adds a member that signs the payload. Where the key cannot sign, the
    /// composite stays as it is.
    pub fn sign_member(&mut self, key: &KeyPair) -> (r: Result<(), SignatifError>)
        ensures
            r is Ok == key.slot(old(self).domain, old(self).payload@) is Some,
            r is Ok ==> final(self)@ == (CompositeView {
                members: old(self)@.members.push(
                    key.slot(old(self).domain, old(self).payload@)->0,
                ),
                ..old(self)@
            }) && issued(
                *key,
                old(self).domain,
                old(self).payload@,
                final(self)@.members.last(),
            ),
            r matches Err(e) ==> e@ == signing_error() && *final(self) == *old(self),
    {
        match SignatureSlot::sign(key, self.domain, self.payload.as_slice()) {
            Err(e) => Err(e),
            Ok(slot) => {
                self.members.push(slot);
                assert(self@.members =~= old(self)@.members.push(slot@));
                Ok(())
            },
        }
    }

    /// Adds a member without a signature.
    pub fn frame_member(&mut self, suite: Suite, key_id: &KeyId)
        ensures
            final(self)@ == (CompositeView {
                members: old(self)@.members.push(
                    SlotView { suite, key_id: key_id@, signature: None },
                ),
                ..old(self)@
            }),
    {
        let slot = SignatureSlot::placeholder(suite, key_id);
        self.members.push(slot);
        assert(self@.members =~= old(self)@.members.push(slot@));
    }

    /// Checks every member against its registered key.
    pub fn verify(&self, keys: &KeyDirectory) -> (r: CompositeVerdict)
        ensures
            verdict_views(r.members@) == self@.verdicts(*keys),
            r.verified == self@.holds(*keys),
    {
        let members = judge_slots(&self.members, self.domain, self.payload.as_slice(), keys);
        let ghost want = self@.verdicts(*keys);
        let mut all = true;
        let mut i: usize = 0;
        while i < members.len()
            invariant
                i <= members.len(),
                want == self@.verdicts(*keys),
                verdict_views(members@) == want,
                all == (forall|k: int| 0 <= k < i ==> (#[trigger] want[k]) is Verified),
            decreases members.len() - i,
        {
            assert(want[i as int] == members@[i as int]@);
            if !members[i].is_verified() {
                all = false;
            }
            i += 1;
        }
        let verified = members.len() > 0 && all;
        proof {
            assert(want.len() == members@.len());
            if verified {
                assert forall|k: int| 0 <= k < self@.members.len() implies slot_verdict(
                    #[trigger] self@.members[k],
                    self.domain,
                    self.payload@,
                    *keys,
                ) is Verified by {
                    assert(want[k] is Verified);
                }
            } else if self@.holds(*keys) {
                assert forall|k: int| 0 <= k < want.len() implies (#[trigger] want[k]) is Verified by {
                    assert(slot_verdict(
                        self@.members[k],
                        self.domain,
                        self.payload@,
                        *keys,
                    ) is Verified);
                }
            }
        }
        CompositeVerdict { members, verified }
    }

    /// The suites of the members.
    pub fn member_suites(&self) -> (r: SuiteSet)
        ensures
            r@ == self@.suites(),
    {
        let mut r = SuiteSet::new();
        let ghost all = self@.members.map_values(|m: SlotView| m.suite);
        let mut i: usize = 0;
        assert(all.take(0).to_set() =~= Set::<Suite>::empty());
        while i < self.members.len()
            invariant
                i <= self.members.len(),
                all == self@.members.map_values(|m: SlotView| m.suite),
                r@ == all.take(i as int).to_set(),
            decreases self.members.len() - i,
        {
            proof {
                assert(all.take(i + 1) =~= all.take(i as int).push(all[i as int]));
                crate::sets::lemma_push_to_set(all.take(i as int), all[i as int]);
            }
            r.insert(self.members[i].suite);
            i += 1;
        }
        assert(all.take(i as int) =~= all);
        r
    }
}

/// What a composite came to.
#[derive(Debug, Clone, PartialEq, Eq)]
pub struct CompositeVerdict {
    /// The verdicts of the members, in their order.
    pub members: Vec<SlotVerdict>,
    /// Whether the composite as a whole verified.
    pub verified: bool,
}

impl CompositeVerdict {
    /// The first member that did not verify.
    pub fn first_failing_member(&self) -> (r: Option<&SlotVerdict>)
        ensures
            r is None == (forall|i: int|
                0 <= i < self.members@.len() ==> (#[trigger] self.members@[i])@ is Verified),
            r matches Some(v) ==> exists|i: int|
                0 <= i < self.members@.len() && *v == self.members@[i] && !(
                #[trigger] self.members@[i]@ is Verified) && forall|k: int|
                    0 <= k < i ==> (#[trigger] self.members@[k])@ is Verified,
    {
        let mut i: usize = 0;
        while i < self.members.len()
            invariant
                i <= self.members.len(),
                forall|k: int| 0 <= k < i ==> (#[trigger] self.members@[k])@ is Verified,
            decreases self.members.len() - i,
        {
            if !self.members[i].is_verified() {
                assert(!(self.members@[i as int]@ is Verified));
                return Some(&self.members[i]);
            }
            i += 1;
        }
        None
    }
}

/// Signatures of several suites over one payload, and composite signatures
/// beside them.
#[derive(Debug, Clone, PartialEq, Eq)]
pub struct CoSignature {
    /// The domain of all signatures.
    pub domain: SigningDomain,
    /// The payload.
    pub payload: Vec<u8>,
    /// The plain slots.
    pub slots: Vec<SignatureSlot>,
    /// The composites.
    pub composites: Vec<CompositeSignature>,
}

/// A co-signature as a mathematical value.
#[verifier::ext_equal]
pub struct CoSignatureView {
    /// See [`CoSignature::domain`].
    pub domain: SigningDomain,
    /// See [`CoSignature::payload`].
    pub payload: Seq<u8>,
    /// See [`CoSignature::slots`].
    pub slots: Seq<SlotView>,
    /// See [`CoSignature::composites`].
    pub composites: Seq<CompositeView>,
}

/// The composites of a list as mathematical values.
pub open spec fn composite_views(s: Seq<CompositeSignature>) -> Seq<CompositeView> {
    s.map_values(|x: CompositeSignature| x@)
}

impl View for CoSignature {
    type V = CoSignatureView;

    open spec fn view(&self) -> CoSignatureView {
        CoSignatureView {
            domain: self.domain,
            payload: self.payload@,
            slots: slot_views(self.slots@),
            composites: composite_views(self.composites@),
        }
    }
}

/// The suites of the verdicts that verified.
pub open spec fn verified_in(verdicts: Seq<SlotVerdictView>) -> Set<Suite>
    decreases verdicts.len(),
{
    if verdicts.len() == 0 {
        Set::empty()
    } else {
        let front = verified_in(verdicts.drop_last());
        match verdicts.last() {
            SlotVerdictView::Verified { suite, .. } => front.insert(suite),
            _ => front,
        }
    }
}

/// The suites of the composites that hold.
pub open spec fn held_suites(composites: Seq<CompositeView>, keys: KeyDirectory) -> Set<Suite>
    decreases composites.len(),
{
    if composites.len() == 0 {
        Set::empty()
    } else {
        let front = held_suites(composites.drop_last(), keys);
        if composites.last().holds(keys) {
            front.union(composites.last().suites())
        } else {
            front
        }
    }
}

impl CoSignatureView {
    /// The suites that verified: those of the slots that verify and those of
    /// the composites that hold.
    pub open spec fn verified_suites(self, keys: KeyDirectory) -> Set<Suite> {
        verified_in(slot_verdicts(self.slots, self.domain, self.payload, keys)).union(
            held_suites(self.composites, keys),
        )
    }
}

/// What verifies depends on nothing but the directory's lookups.
pub(crate) proof fn lemma_verified_suites_agree(
    a: CoSignatureView,
    keys: KeyDirectory,
    others: KeyDirectory,
)
    requires
        forall|id: Seq<char>| #[trigger] keys.lookup(id) == others.lookup(id),
    ensures
        slot_verdicts(a.slots, a.domain, a.payload, keys) == slot_verdicts(
            a.slots,
            a.domain,
            a.payload,
            others,
        ),
        a.verified_suites(keys) == a.verified_suites(others),
{
    lemma_slot_verdicts_agree(a.slots, a.domain, a.payload, keys, others);
    lemma_held_suites_agree(a.composites, keys, others);
}

/// What slots come to depends on nothing but the directory's lookups.
pub(crate) proof fn lemma_slot_verdicts_agree(
    slots: Seq<SlotView>,
    domain: SigningDomain,
    payload: Seq<u8>,
    keys: KeyDirectory,
    others: KeyDirectory,
)
    requires
        forall|id: Seq<char>| #[trigger] keys.lookup(id) == others.lookup(id),
    ensures
        slot_verdicts(slots, domain, payload, keys) == slot_verdicts(
            slots,
            domain,
            payload,
            others,
        ),
{
    let a = slot_verdicts(slots, domain, payload, keys);
    let b = slot_verdicts(slots, domain, payload, others);
    assert forall|i: int| 0 <= i < slots.len() implies a[i] == b[i] by {
        assert(keys.lookup(slots[i].key_id) == others.lookup(slots[i].key_id));
    }
    assert(a =~= b);
}

/// The verdict on a composite depends on nothing but the directory's lookups.
pub(crate) proof fn lemma_composite_agrees(
    c: CompositeView,
    keys: KeyDirectory,
    others: KeyDirectory,
)
    requires
        forall|id: Seq<char>| #[trigger] keys.lookup(id) == others.lookup(id),
    ensures
        c.verdicts(keys) == c.verdicts(others),
        c.holds(keys) == c.holds(others),
{
    assert forall|i: int| 0 <= i < c.members.len() implies slot_verdict(
        #[trigger] c.members[i],
        c.domain,
        c.payload,
        keys,
    ) == slot_verdict(c.members[i], c.domain, c.payload, others) by {
        assert(keys.lookup(c.members[i].key_id) == others.lookup(c.members[i].key_id));
    }
    assert(c.verdicts(keys) =~= c.verdicts(others));
}

proof fn lemma_held_suites_agree(
    composites: Seq<CompositeView>,
    keys: KeyDirectory,
    others: KeyDirectory,
)
    requires
        forall|id: Seq<char>| #[trigger] keys.lookup(id) == others.lookup(id),
    ensures
        held_suites(composites, keys) == held_suites(composites, others),
    decreases composites.len(),
{
    if composites.len() > 0 {
        lemma_held_suites_agree(composites.drop_last(), keys, others);
        lemma_composite_agrees(composites.last(), keys, others);
    }
}

/// The error when a composite covers something else.
pub open spec fn composite_error() -> ErrorView {
    ErrorView::Validation("composite signature must cover the co-signature's domain and payload"@)
}

/// The slots that keys make over a payload, if every one makes one.
pub open spec fn member_slots(
    keys: Seq<&KeyPair>,
    domain: SigningDomain,
    payload: Seq<u8>,
) -> Option<Seq<SlotView>>
    decreases keys.len(),
{
    if keys.len() == 0 {
        Some(Seq::empty())
    } else {
        match (member_slots(keys.drop_last(), domain, payload), keys.last().slot(domain, payload)) {
            (Some(front), Some(slot)) => Some(front.push(slot)),
            _ => None,
        }
    }
}

impl CoSignature {
    /// A co-signature without signatures.
    pub fn new(domain: SigningDomain, payload: &[u8]) -> (r: CoSignature)
        ensures
            r@ == (CoSignatureView {
                domain,
                payload: payload@,
                slots: Seq::empty(),
                composites: Seq::empty(),
            }),
    {
        let r = CoSignature {
            domain,
            payload: copied(payload),
            slots: Vec::new(),
            composites: Vec::new(),
        };
        assert(r@.slots =~= Seq::<SlotView>::empty());
        assert(r@.composites =~= Seq::<CompositeView>::empty());
        r
    }

    /// Adds a slot signed by a key. Where the key cannot sign, the
    /// co-signature stays as it is.
    pub fn sign_by(&mut self, key: &KeyPair) -> (r: Result<(), SignatifError>)
        ensures
            r is Ok == key.slot(old(self).domain, old(self).payload@) is Some,
            r is Ok ==> final(self)@ == (CoSignatureView {
                slots: old(self)@.slots.push(key.slot(old(self).domain, old(self).payload@)->0),
                ..old(self)@
            }) && issued(
                *key,
                old(self).domain,
                old(self).payload@,
                final(self)@.slots.last(),
            ),
            r matches Err(e) ==> e@ == signing_error() && *final(self) == *old(self),
    {
        match SignatureSlot::sign(key, self.domain, self.payload.as_slice()) {
            Err(e) => Err(e),
            Ok(slot) => {
                self.slots.push(slot);
                assert(self@.slots =~= old(self)@.slots.push(slot@));
                Ok(())
            },
        }
    }

    /// Adds a slot without a signature.
    pub fn frame_by(&mut self, suite: Suite, key_id: &KeyId)
        ensures
            final(self)@ == (CoSignatureView {
                slots: old(self)@.slots.push(SlotView { suite, key_id: key_id@, signature: None }),
                ..old(self)@
            }),
    {
        let slot = SignatureSlot::placeholder(suite, key_id);
        self.slots.push(slot);
        assert(self@.slots =~= old(self)@.slots.push(slot@));
    }

    /// Adds a composite. It must cover this co-signature's domain and payload.
    pub fn attach_composite(&mut self, composite: CompositeSignature) -> (r: Result<
        (),
        SignatifError,
    >)
        ensures
            r is Ok == (composite.domain == old(self).domain && composite.payload@ == old(
                self,
            ).payload@),
            r is Ok ==> final(self)@ == (CoSignatureView {
                composites: old(self)@.composites.push(composite@),
                ..old(self)@
            }),
            r matches Err(e) ==> e@ == composite_error() && *final(self) == *old(self),
    {
        if composite.domain != self.domain || !same_bytes(
            composite.payload.as_slice(),
            self.payload.as_slice(),
        ) {
            return Err(
                SignatifError::invalid(
                    "composite signature must cover the co-signature's domain and payload",
                ),
            );
        }
        self.composites.push(composite);
        assert(self@.composites =~= old(self)@.composites.push(composite@));
        Ok(())
    }

    /// Adds a composite over this co-signature's domain and payload, signed by
    /// each of the keys.
    pub fn sign_composite_by(&mut self, keys: &[&KeyPair]) -> (r: Result<(), SignatifError>)
        ensures
            r is Ok == member_slots(keys@, old(self).domain, old(self).payload@) is Some,
            r is Ok ==> final(self)@ == (CoSignatureView {
                composites: old(self)@.composites.push(
                    CompositeView {
                        domain: old(self).domain,
                        payload: old(self).payload@,
                        members: member_slots(keys@, old(self).domain, old(self).payload@)->0,
                    },
                ),
                ..old(self)@
            }) && all_issued(
                keys@,
                old(self).domain,
                old(self).payload@,
                final(self)@.composites.last().members,
            ),
            r matches Err(e) ==> e@ == signing_error() && *final(self) == *old(self),
    {
        let mut composite = CompositeSignature::new(self.domain, self.payload.as_slice());
        let ghost domain = self.domain;
        let ghost payload = self.payload@;
        let mut i: usize = 0;
        assert(keys@.take(0) =~= Seq::<&KeyPair>::empty());
        while i < keys.len()
            invariant
                i <= keys.len(),
                *self == *old(self),
                domain == self.domain,
                payload == self.payload@,
                composite@.domain == domain,
                composite@.payload == payload,
                member_slots(keys@.take(i as int), domain, payload) == Some(composite@.members),
                all_issued(keys@.take(i as int), domain, payload, composite@.members),
            decreases keys.len() - i,
        {
            let ghost before = composite@.members;
            proof {
                assert(keys@.take(i + 1).drop_last() =~= keys@.take(i as int));
                assert(keys@.take(i + 1).last() == keys@[i as int]);
            }
            if let Err(e) = composite.sign_member(keys[i]) {
                proof {
                    lemma_member_slots_prefix(keys@, i + 1, domain, payload);
                }
                return Err(e);
            }
            assert forall|k: int| 0 <= k < i + 1 implies issued(
                *keys@.take(i + 1)[k],
                domain,
                payload,
                #[trigger] composite@.members[k],
            ) by {
                if k < i {
                    assert(before[k] == composite@.members[k]);
                }
            }
            i += 1;
        }
        assert(keys@.take(i as int) =~= keys@);
        self.attach_composite(composite)
    }

    /// Checks every slot and every composite against a directory of keys.
    pub fn verify(&self, keys: &KeyDirectory) -> (r: CoSignatureReport)
        ensures
            verdict_views(r.slots@) == slot_verdicts(
                self@.slots,
                self.domain,
                self.payload@,
                *keys,
            ),
            r.composites@.len() == self@.composites.len(),
            forall|i: int|
                0 <= i < r.composites@.len() ==> verdict_views(
                    (#[trigger] r.composites@[i]).members@,
                ) == self@.composites[i].verdicts(*keys),
            forall|i: int|
                0 <= i < r.composites@.len() ==> (#[trigger] r.composites@[i]).verified
                    == self@.composites[i].holds(*keys),
            r.verified_suites@ == self@.verified_suites(*keys),
    {
        let slots = judge_slots(&self.slots, self.domain, self.payload.as_slice(), keys);
        let mut verified_suites = SuiteSet::new();
        let ghost verdicts = slot_verdicts(self@.slots, self.domain, self.payload@, *keys);
        let mut i: usize = 0;
        assert(verdicts.take(0) =~= Seq::<SlotVerdictView>::empty());
        while i < slots.len()
            invariant
                i <= slots.len(),
                verdict_views(slots@) == verdicts,
                verified_suites@ == verified_in(verdicts.take(i as int)),
            decreases slots.len() - i,
        {
            proof {
                assert(verdicts.take(i + 1).drop_last() =~= verdicts.take(i as int));
                assert(verdicts.take(i + 1).last() == slots@[i as int]@);
            }
            if let SlotVerdict::Verified { suite, .. } = &slots[i] {
                verified_suites.insert(*suite);
            }
            i += 1;
        }
        assert(verdicts.take(i as int) =~= verdicts);
        let mut composites: Vec<CompositeVerdict> = Vec::new();
        let ghost views = self@.composites;
        let mut j: usize = 0;
        assert(views.take(0) =~= Seq::<CompositeView>::empty());
        assert(verified_suites@ =~= verified_in(verdicts).union(
            held_suites(views.take(0), *keys),
        ));
        while j < self.composites.len()
            invariant
                j <= self.composites.len(),
                views == composite_views(self.composites@),
                composites@.len() == j,
                forall|k: int|
                    0 <= k < j ==> verdict_views((#[trigger] composites@[k]).members@)
                        == views[k].verdicts(*keys),
                forall|k: int|
                    0 <= k < j ==> (#[trigger] composites@[k]).verified == views[k].holds(*keys),
                verified_suites@ == verified_in(verdicts).union(
                    held_suites(views.take(j as int), *keys),
                ),
            decreases self.composites.len() - j,
        {
            proof {
                assert(views.take(j + 1).drop_last() =~= views.take(j as int));
                assert(views.take(j + 1).last() == self.composites@[j as int]@);
            }
            let verdict = self.composites[j].verify(keys);
            if verdict.verified {
                let more = self.composites[j].member_suites();
                verified_suites = verified_suites.union(&more);
                assert(verified_suites@ =~= verified_in(verdicts).union(
                    held_suites(views.take(j + 1), *keys),
                ));
            }
            composites.push(verdict);
            j += 1;
        }
        assert(views.take(j as int) =~= views);
        CoSignatureReport { slots, verified_suites, composites }
    }

    /// Checks one slot against a directory of keys.
    pub fn slot_verdict(
        slot: &SignatureSlot,
        domain: SigningDomain,
        payload: &[u8],
        keys: &KeyDirectory,
    ) -> (r: SlotVerdict)
        ensures
            r@ == slot_verdict(slot@, domain, payload@, *keys),
    {
        match keys.resolve(&slot.key_id) {
            None => SlotVerdict::UnknownKey { suite: slot.suite, key_id: slot.key_id.clone() },
            Some(public) => match slot.verify(domain, payload, public) {
                Ok(()) => SlotVerdict::Verified { suite: slot.suite, key_id: slot.key_id.clone() },
                Err(SignatifError::SuiteDeferred { suite, detail }) => SlotVerdict::Deferred {
                    suite,
                    key_id: slot.key_id.clone(),
                    detail,
                },
                Err(SignatifError::Unsupported { suite, detail }) => SlotVerdict::Deferred {
                    suite,
                    key_id: slot.key_id.clone(),
                    detail,
                },
                Err(e) => SlotVerdict::Invalid {
                    suite: slot.suite,
                    key_id: slot.key_id.clone(),
                    why: e.to_string(),
                },
            },
        }
    }
}

pub(crate) proof fn lemma_member_slots_prefix(
    keys: Seq<&KeyPair>,
    n: int,
    domain: SigningDomain,
    payload: Seq<u8>,
)
    requires
        0 <= n <= keys.len(),
        member_slots(keys.take(n), domain, payload) is None,
    ensures
        member_slots(keys, domain, payload) is None,
    decreases keys.len() - n,
{
    if n == keys.len() {
        assert(keys.take(n) =~= keys);
    } else {
        assert(keys.take(n + 1).drop_last() =~= keys.take(n));
        lemma_member_slots_prefix(keys, n + 1, domain, payload);
    }
}

/// What a co-signature came to.
#[derive(Debug, Clone, PartialEq, Eq)]
pub struct CoSignatureReport {
    /// The verdicts of the slots, in their order.
    pub slots: Vec<SlotVerdict>,
    /// The suites that verified.
    pub verified_suites: SuiteSet,
    /// The verdicts of the composites, in their order.
    pub composites: Vec<CompositeVerdict>,
}

/// The number of verdicts that verified.
pub open spec fn verified_among(verdicts: Seq<SlotVerdictView>) -> nat
    decreases verdicts.len(),
{
    if verdicts.len() == 0 {
        0
    } else {
        verified_among(verdicts.drop_last()) + if verdicts.last() is Verified {
            1nat
        } else {
            0nat
        }
    }
}

impl CoSignatureReport {
    /// The number of slots that verified.
    pub fn verified_count(&self) -> (r: usize)
        ensures
            r == verified_among(verdict_views(self.slots@)),
    {
        let ghost all = verdict_views(self.slots@);
        let mut n: usize = 0;
        let mut i: usize = 0;
        assert(all.take(0) =~= Seq::<SlotVerdictView>::empty());
        while i < self.slots.len()
            invariant
                i <= self.slots.len(),
                n <= i,
                all == verdict_views(self.slots@),
                n == verified_among(all.take(i as int)),
            decreases self.slots.len() - i,
        {
            proof {
                assert(all.take(i + 1).drop_last() =~= all.take(i as int));
                assert(all.take(i + 1).last() == self.slots@[i as int]@);
            }
            if self.slots[i].is_verified() {
                n += 1;
            }
            i += 1;
        }
        assert(all.take(i as int) =~= all);
        n
    }

    /// Whether some slot or composite verified.
    pub fn any_verified(&self) -> (r: bool)
        ensures
            r == (self.verified_suites@ != Set::<Suite>::empty()),
    {
        !self.verified_suites.is_empty()
    }

    /// The number of distinct suites that verified.
    pub fn distinct_verified_suites(&self) -> (r: usize)
        ensures
            r == self.verified_suites.members().len(),
    {
        self.verified_suites.len()
    }

    /// Whether every composite verified.
    pub fn all_composites_verified(&self) -> (r: bool)
        ensures
            r == (forall|i: int|
                0 <= i < self.composites@.len() ==> (#[trigger] self.composites@[i]).verified),
    {
        let mut i: usize = 0;
        while i < self.composites.len()
            invariant
                i <= self.composites.len(),
                forall|k: int| 0 <= k < i ==> (#[trigger] self.composites@[k]).verified,
            decreases self.composites.len() - i,
        {
            if !self.composites[i].verified {
                return false;
            }
            i += 1;
        }
        true
    }
}

/// Which suites a verifier accepts, and how many distinct ones it demands.
#[derive(Debug, PartialEq, Eq)]
pub struct AcceptancePolicy {
    /// The suites that count.
    pub allowed_suites: SuiteSet,
    /// How many distinct suites must have verified.
    pub min_verified_suites: usize,
}

/// The outcome of an acceptance policy.
#[derive(Debug, Clone, PartialEq, Eq)]
pub enum Acceptance {
    /// Accepted.
    Accepted {
        /// The allowed suites that verified.
        suites: SuiteSet,
    },
    /// Rejected.
    Rejected {
        /// Why.
        reason: String,
    },
}

impl Acceptance {
    /// Whether the policy accepted.
    pub fn is_accepted(&self) -> (r: bool)
        ensures
            r == (self is Accepted),
    {
        match self {
            Acceptance::Accepted { .. } => true,
            Acceptance::Rejected { .. } => false,
        }
    }
}

/// Suite tokens in quotes, separated by commas.
pub open spec fn token_list(s: Seq<Suite>) -> Seq<char>
    decreases s.len(),
{
    if s.len() == 0 {
        ""@
    } else if s.len() == 1 {
        quoted(s[0].token())
    } else {
        token_list(s.drop_last()) + ", "@ + quoted(s.last().token())
    }
}

fn list_tokens(s: &Vec<Suite>) -> (r: String)
    ensures
        r@ == token_list(s@),
{
    let mut out = "".to_owned();
    let mut i: usize = 0;
    assert(s@.take(0) =~= Seq::<Suite>::empty());
    while i < s.len()
        invariant
            i <= s.len(),
            out@ == token_list(s@.take(i as int)),
        decreases s.len() - i,
    {
        proof {
            reveal_strlit("");
            assert(s@.take(i + 1).drop_last() =~= s@.take(i as int));
            assert(s@.take(i + 1).last() == s@[i as int]);
            assert(""@ + quoted(s@[i as int].token()) =~= quoted(s@[i as int].token()));
        }
        if i > 0 {
            out.push_str(", ");
        }
        let q = quote(s[i].as_str());
        out.push_str(q.as_str());
        i += 1;
    }
    assert(s@.take(i as int) =~= s@);
    out
}

impl AcceptancePolicy {
    /// The allowed suites among those that verified.
    pub open spec fn counted(self, verified: Set<Suite>) -> Set<Suite> {
        verified.intersect(self.allowed_suites@)
    }

    /// Whether the policy accepts when these suites verified: some allowed
    /// suite is among them, and there are as many as it demands.
    pub open spec fn accepts(self, verified: Set<Suite>) -> bool {
        &&& self.counted(verified) != Set::<Suite>::empty()
        &&& self.min_verified_suites <= suites_in_order(self.counted(verified), 8).len()
    }

    /// Why the policy rejects when these suites verified.
    pub open spec fn reason(self, verified: Set<Suite>) -> Seq<char> {
        if self.counted(verified) == Set::<Suite>::empty() {
            "no slot verified under an allowed suite (allowed: ["@ + token_list(
                self.allowed_suites.members(),
            ) + "])"@
        } else {
            "policy requires "@ + decimal(self.min_verified_suites as nat)
                + " distinct verified suites, got "@ + decimal(
                suites_in_order(self.counted(verified), 8).len(),
            )
        }
    }

    /// Accepts any computed suite.
    pub fn any_computed() -> (r: AcceptancePolicy)
        ensures
            r.allowed_suites@ == set![Suite::Ed25519, Suite::EcdsaP256],
            r.min_verified_suites == 1,
    {
        let mut allowed_suites = SuiteSet::new();
        allowed_suites.insert(Suite::Ed25519);
        allowed_suites.insert(Suite::EcdsaP256);
        assert(allowed_suites@ =~= set![Suite::Ed25519, Suite::EcdsaP256]);
        AcceptancePolicy { allowed_suites, min_verified_suites: 1 }
    }

    /// Accepts any of the given suites.
    pub fn only(suites: &[Suite]) -> (r: AcceptancePolicy)
        ensures
            r.allowed_suites@ == suites@.to_set(),
            r.min_verified_suites == 1,
    {
        AcceptancePolicy { allowed_suites: SuiteSet::of(suites), min_verified_suites: 1 }
    }

    /// Demands both computed suites.
    pub fn multi_signed() -> (r: AcceptancePolicy)
        ensures
            r.allowed_suites@ == set![Suite::Ed25519, Suite::EcdsaP256],
            r.min_verified_suites == 2,
    {
        let any = AcceptancePolicy::any_computed();
        AcceptancePolicy { allowed_suites: any.allowed_suites, min_verified_suites: 2 }
    }

    /// Evaluates a report.
    pub fn evaluate(&self, report: &CoSignatureReport) -> (r: Acceptance)
        ensures
            r is Accepted == self.accepts(report.verified_suites@),
            r matches Acceptance::Accepted { suites } ==> suites@ == self.counted(
                report.verified_suites@,
            ),
            r matches Acceptance::Rejected { reason } ==> reason@ == self.reason(
                report.verified_suites@,
            ),
    {
        let suites = report.verified_suites.intersection(&self.allowed_suites);
        if suites.is_empty() {
            let allowed = self.allowed_suites.to_vec();
            let list = list_tokens(&allowed);
            return Acceptance::Rejected {
                reason: cat3(
                    "no slot verified under an allowed suite (allowed: [",
                    list.as_str(),
                    "])",
                ),
            };
        }
        if suites.len() < self.min_verified_suites {
            let need = count(self.min_verified_suites);
            let got = count(suites.len());
            return Acceptance::Rejected {
                reason: cat4(
                    "policy requires ",
                    need.as_str(),
                    " distinct verified suites, got ",
                    got.as_str(),
                ),
            };
        }
        Acceptance::Accepted { suites }
    }
}

/// A policy that demands one suite accepts as soon as any allowed suite
/// verified.
pub proof fn any_allowed_suite_is_enough(
    policy: AcceptancePolicy,
    verified: Set<Suite>,
    suite: Suite,
)
    requires
        policy.min_verified_suites <= 1,
        verified.contains(suite),
        policy.allowed_suites@.contains(suite),
    ensures
        policy.accepts(verified),
{
    let c = policy.counted(verified);
    assert(c.contains(suite));
    lemma_all_ranks();
    lemma_in_order_members(c, 8);
    assert(suites_in_order(c, 8).contains(suite));
}

/// A co-signature with one more slot has no fewer verified suites: what does
/// not verify is reported, and takes nothing away.
pub proof fn more_slots_verify_no_less(a: CoSignatureView, slot: SlotView, keys: KeyDirectory)
    ensures
        a.verified_suites(keys).subset_of(
            (CoSignatureView { slots: a.slots.push(slot), ..a }).verified_suites(keys),
        ),
{
    let b = CoSignatureView { slots: a.slots.push(slot), ..a };
    let va = slot_verdicts(a.slots, a.domain, a.payload, keys);
    let vb = slot_verdicts(b.slots, b.domain, b.payload, keys);
    assert(vb.drop_last() =~= va);
}

/// The byte strings of a list of slices.
pub open spec fn slice_views(s: Seq<&[u8]>) -> Seq<Seq<u8>> {
    s.map_values(|x: &[u8]| x@)
}

/// The byte strings of a list of vectors.
pub open spec fn vec_views(s: Seq<Vec<u8>>) -> Seq<Seq<u8>> {
    s.map_values(|x: Vec<u8>| x@)
}

/// The canonical bytes of a list of fields.
pub fn canonical_fields(parts: &[&[u8]]) -> (r: Vec<u8>)
    ensures
        r@ == fields(slice_views(parts@)),
{
    let ghost all = slice_views(parts@);
    let mut w = CanonicalWriter::new();
    let mut i: usize = 0;
    assert(all.take(0) =~= Seq::<Seq<u8>>::empty());
    while i < parts.len()
        invariant
            i <= parts.len(),
            all == slice_views(parts@),
            w@ == fields(all.take(i as int)),
        decreases parts.len() - i,
    {
        proof {
            assert(all.take(i + 1).drop_last() =~= all.take(i as int));
            assert(all.take(i + 1).last() == parts@[i as int]@);
        }
        w.write_bytes(parts[i]);
        i += 1;
    }
    assert(all.take(i as int) =~= all);
    w.into_bytes()
}

/// The error of a field stream that ends too early.
pub open spec fn field_error() -> ErrorView {
    ErrorView::Validation("the field stream ends inside a field"@)
}

/// Reads back what [`canonical_fields`] wrote.
pub fn canonical_field_reader(bytes: &[u8]) -> (r: Result<Vec<Vec<u8>>, SignatifError>)
    ensures
        r is Ok == split_fields(bytes@) is Some,
        r matches Ok(v) ==> Some(vec_views(v@)) == split_fields(bytes@),
        r matches Err(e) ==> e@ == field_error(),
{
    let mut reader = CanonicalReader::new(bytes);
    let mut out: Vec<Vec<u8>> = Vec::new();
    let ghost want = split_fields(bytes@);
    assert(vec_views(out@) =~= Seq::<Seq<u8>>::empty());
    assert(want matches Some(w) ==> w =~= vec_views(out@) + w);
    while reader.remaining() > 0
        invariant
            want == split_fields(bytes@),
            want is Some == split_fields(reader.rest()) is Some,
            want matches Some(w) ==> w =~= vec_views(out@) + split_fields(reader.rest())->0,
        decreases reader.rest().len(),
    {
        let ghost before = reader.rest();
        let ghost held = vec_views(out@);
        match reader.read_bytes() {
            None => {
                return Err(SignatifError::invalid("the field stream ends inside a field"));
            },
            Some(v) => {
                out.push(v);
                assert(vec_views(out@) =~= held.push(v@));
            },
        }
    }
    assert(reader.rest() =~= Seq::<u8>::empty());
    Ok(out)
}

/// The slot of a registered key that signed is reported as verified.
pub proof fn signed_slots_verify(
    slot: SlotView,
    key: KeyPair,
    domain: SigningDomain,
    payload: Seq<u8>,
    keys: KeyDirectory,
)
    requires
        issued(key, domain, payload, slot),
        keys.lookup(key_id_of(key.spec_public())) == Some(key.spec_public()),
    ensures
        slot_verdict(slot, domain, payload, keys) is Verified,
{
}

/// A composite that registered keys signed, one member each, holds.
pub proof fn signed_composites_hold(
    composite: CompositeView,
    members: Seq<&KeyPair>,
    keys: KeyDirectory,
)
    requires
        members.len() > 0,
        all_issued(members, composite.domain, composite.payload, composite.members),
        forall|i: int|
            0 <= i < members.len() ==> keys.lookup(
                key_id_of((#[trigger] members[i]).spec_public()),
            ) == Some(members[i].spec_public()),
    ensures
        composite.holds(keys),
{
    assert forall|i: int| 0 <= i < composite.members.len() implies slot_verdict(
        #[trigger] composite.members[i],
        composite.domain,
        composite.payload,
        keys,
    ) is Verified by {
        signed_slots_verify(
            composite.members[i],
            *members[i],
            composite.domain,
            composite.payload,
            keys,
        );
    }
}

/// One member that does not verify is enough for a composite to fail.
pub proof fn composites_need_every_member(composite: CompositeView, keys: KeyDirectory, i: int)
    requires
        0 <= i < composite.members.len(),
        !(slot_verdict(
            composite.members[i],
            composite.domain,
            composite.payload,
            keys,
        ) is Verified),
    ensures
        !composite.holds(keys),
{
}

} // verus!
