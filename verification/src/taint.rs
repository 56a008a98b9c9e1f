//! Taints: what is wrong with a passport, and since when.

use vstd::prelude::*;

use crate::lineage::PassportId;
use crate::text::same_text;
use crate::time::{Interval, Timestamp};

verus! {

/// The taints that are told apart.
#[derive(Debug, Clone, Copy, PartialEq, Eq, Structural)]
pub enum KnownTaint {
    /// The issuing key was compromised.
    Compromised,
    /// The issuer was revoked.
    Revoked,
    /// The passport should not have been issued.
    Misissued,
    /// The passport was issued by fraud.
    Fraud,
}

/// The kind of a taint.
#[derive(Debug, Clone, Copy, PartialEq, Eq, Structural)]
pub enum TaintKind {
    /// A known taint.
    Known(KnownTaint),
}

impl TaintKind {
    /// The token of the kind.
    pub open spec fn spec_token(self) -> Seq<char> {
        match self {
            TaintKind::Known(KnownTaint::Compromised) => "compromised"@,
            TaintKind::Known(KnownTaint::Revoked) => "revoked"@,
            TaintKind::Known(KnownTaint::Misissued) => "misissued"@,
            TaintKind::Known(KnownTaint::Fraud) => "fraud"@,
        }
    }

    /// The token of the kind.
    pub fn to_string(&self) -> (r: String)
        ensures
            r@ == self.spec_token(),
    {
        match self {
            TaintKind::Known(KnownTaint::Compromised) => "compromised".to_owned(),
            TaintKind::Known(KnownTaint::Revoked) => "revoked".to_owned(),
            TaintKind::Known(KnownTaint::Misissued) => "misissued".to_owned(),
            TaintKind::Known(KnownTaint::Fraud) => "fraud".to_owned(),
        }
    }

    /// Whether the kind voids from the start.
    pub open spec fn voids(self) -> bool {
        self == TaintKind::Known(KnownTaint::Misissued) || self == TaintKind::Known(
            KnownTaint::Fraud,
        )
    }
}

/// A taint.
#[derive(Debug, PartialEq, Eq)]
pub struct Taint {
    /// The passport that it started from.
    pub source: PassportId,
    /// Its kind.
    pub kind: TaintKind,
    /// Why.
    pub reason: String,
    /// When it was declared.
    pub at: Timestamp,
    /// The voiding window, if it voids from the start.
    pub window: Option<Interval>,
}

/// A taint as a mathematical value.
#[verifier::ext_equal]
pub struct TaintView {
    /// See [`Taint::source`].
    pub source: Seq<char>,
    /// See [`Taint::kind`].
    pub kind: TaintKind,
    /// See [`Taint::reason`].
    pub reason: Seq<char>,
    /// See [`Taint::at`].
    pub at: Timestamp,
    /// See [`Taint::window`].
    pub window: Option<Interval>,
}

impl View for Taint {
    type V = TaintView;

    open spec fn view(&self) -> TaintView {
        TaintView {
            source: self.source@,
            kind: self.kind,
            reason: self.reason@,
            at: self.at,
            window: self.window,
        }
    }
}

impl Clone for Taint {
    fn clone(&self) -> (r: Taint)
        ensures
            r@ == self@,
    {
        Taint {
            source: self.source.clone(),
            kind: self.kind,
            reason: self.reason.clone(),
            at: self.at,
            window: self.window,
        }
    }
}

fn same_window(a: Option<Interval>, b: Option<Interval>) -> (r: bool)
    ensures
        r == (a == b),
{
    match (a, b) {
        (None, None) => true,
        (Some(x), Some(y)) => x.from == y.from && (match (x.to, y.to) {
            (None, None) => true,
            (Some(s), Some(t)) => s == t,
            _ => false,
        }),
        _ => false,
    }
}

impl Taint {
    /// Whether the taint voids from the start.
    pub fn retroactive(&self) -> (r: bool)
        ensures
            r == self@.kind.voids(),
    {
        match self.kind {
            TaintKind::Known(KnownTaint::Misissued) | TaintKind::Known(KnownTaint::Fraud) => true,
            _ => false,
        }
    }

    /// Whether two taints are the same.
    pub fn same(&self, other: &Taint) -> (r: bool)
        ensures
            r == (self@ == other@),
    {
        self.source.same(&other.source) && self.kind == other.kind && same_text(
            self.reason.as_str(),
            other.reason.as_str(),
        ) && self.at == other.at && same_window(self.window, other.window)
    }
}

/// The taints of a list as mathematical values.
pub open spec fn taint_views(s: Seq<Taint>) -> Seq<TaintView> {
    s.map_values(|t: Taint| t@)
}

/// A list with an item that it did not hold yet.
pub open spec fn with_item<A>(s: Seq<A>, x: A) -> Seq<A> {
    if s.contains(x) {
        s
    } else {
        s.push(x)
    }
}

/// A list without repetitions: of each item the first stays.
pub open spec fn no_repeats<A>(s: Seq<A>) -> Seq<A>
    decreases s.len(),
{
    if s.len() == 0 {
        s
    } else {
        with_item(no_repeats(s.drop_last()), s.last())
    }
}

/// A list without repetitions holds the same items.
pub proof fn lemma_no_repeats_members<A>(s: Seq<A>)
    ensures
        no_repeats(s).to_set() == s.to_set(),
        no_repeats(s).no_duplicates(),
        forall|x: A| #[trigger] no_repeats(s).contains(x) <==> s.contains(x),
    decreases s.len(),
{
    if s.len() > 0 {
        lemma_no_repeats_members(s.drop_last());
        let before = no_repeats(s.drop_last());
        assert forall|x: A| #[trigger] no_repeats(s).contains(x) <==> s.contains(x) by {
            if s.contains(x) {
                let i = s.index_of(x);
                if i < s.len() - 1 {
                    assert(s.drop_last()[i] == x);
                    assert(before.contains(x));
                    let j = before.index_of(x);
                    assert(no_repeats(s)[j] == x);
                } else if !before.contains(x) {
                    assert(no_repeats(s)[before.len() as int] == x);
                }
            }
            if no_repeats(s).contains(x) {
                let j = no_repeats(s).index_of(x);
                if j < before.len() {
                    assert(before[j] == x);
                    assert(before.contains(x));
                    let i = s.drop_last().index_of(x);
                    assert(s[i] == x);
                } else {
                    assert(s[s.len() - 1] == x);
                }
            }
        }
    }
    assert(no_repeats(s).to_set() =~= s.to_set());
}

/// Taints in the order in which they were added, each once.
#[derive(Debug, PartialEq, Eq)]
pub struct TaintSet {
    taints: Vec<Taint>,
}

impl View for TaintSet {
    type V = Seq<TaintView>;

    closed spec fn view(&self) -> Seq<TaintView> {
        taint_views(self.taints@)
    }
}

/// Whether any taint of a list voids from the start.
pub open spec fn any_voids(s: Seq<TaintView>) -> bool {
    exists|i: int| 0 <= i < s.len() && (#[trigger] s[i]).kind.voids()
}

impl TaintSet {
    /// No taints.
    pub fn new() -> (r: TaintSet)
        ensures
            r@ == Seq::<TaintView>::empty(),
    {
        let r = TaintSet { taints: Vec::new() };
        assert(r@ =~= Seq::<TaintView>::empty());
        r
    }

    /// Adds a taint, unless it is there.
    pub fn add(&mut self, taint: Taint)
        ensures
            final(self)@ == with_item(old(self)@, taint@),
    {
        let ghost before = self@;
        let mut i: usize = 0;
        while i < self.taints.len()
            invariant
                i <= self.taints.len(),
                self@ == before,
                forall|k: int| 0 <= k < i ==> #[trigger] self@[k] != taint@,
            decreases self.taints.len() - i,
        {
            if self.taints[i].same(&taint) {
                assert(self@[i as int] == taint@);
                return;
            }
            assert(self@[i as int] == self.taints@[i as int]@);
            i += 1;
        }
        self.taints.push(taint);
        assert(self@ =~= before.push(taint@));
    }

    /// Whether there are no taints.
    pub fn is_empty(&self) -> (r: bool)
        ensures
            r == (self@.len() == 0),
    {
        self.taints.len() == 0
    }

    /// The taints.
    pub fn entries(&self) -> (r: &[Taint])
        ensures
            taint_views(r@) == self@,
    {
        self.taints.as_slice()
    }

    /// Whether any taint voids from the start.
    pub fn voids_ab_initio(&self) -> (r: bool)
        ensures
            r == any_voids(self@),
    {
        let mut i: usize = 0;
        while i < self.taints.len()
            invariant
                i <= self.taints.len(),
                forall|k: int| 0 <= k < i ==> !(#[trigger] self@[k]).kind.voids(),
            decreases self.taints.len() - i,
        {
            assert(self@[i as int] == self.taints@[i as int]@);
            if self.taints[i].retroactive() {
                return true;
            }
            i += 1;
        }
        false
    }
}

} // verus!
