//! Passports and how they derive from one another.

use vstd::prelude::*;

use crate::sets::StringSet;
use crate::text::{all_graphic, cat3, graphic, same_text, string_of, trim, trimmed};
use crate::{ErrorView, SignatifError};

verus! {

/// The id of a passport: printing ASCII characters, at least one.
#[derive(Debug, PartialEq, Eq, PartialOrd, Ord, Hash)]
pub struct PassportId(String);

impl View for PassportId {
    type V = Seq<char>;

    closed spec fn view(&self) -> Seq<char> {
        self.0@
    }
}

impl Clone for PassportId {
    fn clone(&self) -> (r: PassportId)
        ensures
            r == *self,
    {
        PassportId(self.0.clone())
    }
}

impl PassportId {
    /// Reads a passport id; white space at the ends is dropped.
    pub fn new(raw: &str) -> (r: Result<PassportId, SignatifError>)
        ensures
            r is Ok == (trimmed(raw@).len() > 0 && all_graphic(trimmed(raw@))),
            r matches Ok(id) ==> id@ == trimmed(raw@),
            r matches Err(e) ==> e@ == ErrorView::Validation("bad passport id `"@ + raw@ + "`"@),
    {
        let t = trim(raw);
        if t.len() == 0 || !graphic(t.as_slice()) {
            return Err(SignatifError::Validation(cat3("bad passport id `", raw, "`")));
        }
        Ok(PassportId(string_of(t.as_slice())))
    }

    /// The id with a text that was an id before.
    pub(crate) fn listed(text: &String) -> (r: PassportId)
        ensures
            r@ == text@,
    {
        PassportId(text.clone())
    }

    /// The text of the id.
    pub fn as_str(&self) -> (r: &str)
        ensures
            r@ == self@,
    {
        self.0.as_str()
    }

    /// The text of the id.
    pub fn to_string(&self) -> (r: String)
        ensures
            r@ == self@,
    {
        self.0.clone()
    }

    /// Whether two ids are the same.
    pub fn same(&self, other: &PassportId) -> (r: bool)
        ensures
            r == (self@ == other@),
    {
        same_text(self.0.as_str(), other.0.as_str())
    }
}

/// How passports derive from one another: which passport was made from which.
#[derive(Debug, PartialEq, Eq)]
pub struct ProvenanceGraph {
    edges: Vec<(PassportId, PassportId)>,
}

/// Whether a set holds what a passport was made from, and with each passport
/// what that one was made from.
pub open spec fn closed_above(
    edges: Seq<(Seq<char>, Seq<char>)>,
    passport: Seq<char>,
    s: Set<Seq<char>>,
) -> bool {
    forall|i: int|
        0 <= i < edges.len() && ((#[trigger] edges[i]).0 == passport || s.contains(edges[i].0))
            ==> s.contains(edges[i].1)
}

/// Whether one passport went into another, directly or through others: it is
/// in every set that is closed above the other.
pub open spec fn is_ancestor(
    edges: Seq<(Seq<char>, Seq<char>)>,
    passport: Seq<char>,
    other: Seq<char>,
) -> bool {
    forall|s: Set<Seq<char>>| #[trigger] closed_above(edges, passport, s) ==> s.contains(other)
}

/// The passports that went into a passport.
pub open spec fn ancestors_of(edges: Seq<(Seq<char>, Seq<char>)>, passport: Seq<char>) -> Set<
    Seq<char>,
> {
    edge_parents(edges).filter(|x: Seq<char>| is_ancestor(edges, passport, x))
}

/// The passports that something was made from.
pub open spec fn edge_parents(edges: Seq<(Seq<char>, Seq<char>)>) -> Set<Seq<char>> {
    edges.map_values(|e: (Seq<char>, Seq<char>)| e.1).to_set()
}

/// What goes into what went into a passport went into the passport.
pub proof fn ancestry_is_transitive(
    edges: Seq<(Seq<char>, Seq<char>)>,
    a: Seq<char>,
    b: Seq<char>,
    c: Seq<char>,
)
    requires
        is_ancestor(edges, a, b),
        is_ancestor(edges, b, c),
    ensures
        is_ancestor(edges, a, c),
{
    assert forall|s: Set<Seq<char>>| #[trigger] closed_above(edges, a, s) implies s.contains(
        c,
    ) by {
        assert(s.contains(b));
        assert(closed_above(edges, b, s));
    }
}

/// The ancestors of a passport are the members of [`ancestors_of`].
pub proof fn lemma_ancestors(edges: Seq<(Seq<char>, Seq<char>)>, passport: Seq<char>)
    ensures
        ancestors_of(edges, passport).finite(),
        forall|x: Seq<char>| #[trigger]
            ancestors_of(edges, passport).contains(x) <==> is_ancestor(edges, passport, x),
{
    let parents = edges.map_values(|e: (Seq<char>, Seq<char>)| e.1);
    assert forall|i: int| 0 <= i < edges.len() implies edge_parents(edges).contains(
        (#[trigger] edges[i]).1,
    ) by {
        assert(parents[i] == edges[i].1);
    }
    assert(closed_above(edges, passport, edge_parents(edges)));
}

impl ProvenanceGraph {
    /// The edges, each from a passport to one that it was made from.
    pub closed spec fn spec_edges(self) -> Seq<(Seq<char>, Seq<char>)> {
        self.edges@.map_values(|e: (PassportId, PassportId)| (e.0@, e.1@))
    }

    /// No edges.
    pub fn new() -> (r: ProvenanceGraph)
        ensures
            r.spec_edges() == Seq::<(Seq<char>, Seq<char>)>::empty(),
    {
        let r = ProvenanceGraph { edges: Vec::new() };
        assert(r.spec_edges() =~= Seq::<(Seq<char>, Seq<char>)>::empty());
        r
    }

    /// Records that a passport was made from others.
    pub fn record_combine(&mut self, output: PassportId, inputs: &[PassportId])
        ensures
            final(self).spec_edges() == old(self).spec_edges() + inputs@.map_values(
                |p: PassportId| (output@, p@),
            ),
    {
        let ghost start = self.spec_edges();
        let ghost all = inputs@.map_values(|p: PassportId| (output@, p@));
        let mut i: usize = 0;
        assert(start + all.take(0) =~= start);
        while i < inputs.len()
            invariant
                i <= inputs.len(),
                all == inputs@.map_values(|p: PassportId| (output@, p@)),
                self.spec_edges() == start + all.take(i as int),
            decreases inputs.len() - i,
        {
            let ghost before = self.spec_edges();
            self.edges.push((output.clone(), inputs[i].clone()));
            assert(self.spec_edges() =~= before.push(all[i as int]));
            assert(before.push(all[i as int]) =~= start + all.take(i + 1));
            i += 1;
        }
        assert(all.take(i as int) =~= all);
    }

    /// The passports that went into a passport, directly or through others.
    pub fn ancestors(&self, passport: &PassportId) -> (r: StringSet)
        ensures
            r.members() == ancestors_of(self.spec_edges(), passport@),
            forall|x: Seq<char>| #[trigger]
                r.members().contains(x) <==> is_ancestor(self.spec_edges(), passport@, x),
    {
        let mut found = StringSet::new();
        let ghost edges = self.spec_edges();
        let ghost parents = edge_parents(edges);
        let mut changed = true;
        while changed
            invariant
                edges == self.spec_edges(),
                parents == edge_parents(edges),
                parents.finite(),
                found.members().subset_of(parents),
                forall|x: Seq<char>| #[trigger]
                    found.members().contains(x) ==> is_ancestor(edges, passport@, x),
                !changed ==> closed_above(edges, passport@, found.members()),
            decreases parents.difference(found.members()).len(), (if changed {
                1int
            } else {
                0int
            }),
        {
            changed = self.add_parents(passport, &mut found);
        }
        proof {
            assert forall|x: Seq<char>| #[trigger]
                found.members().contains(x) <==> is_ancestor(edges, passport@, x) by {
                if is_ancestor(edges, passport@, x) {
                    assert(closed_above(edges, passport@, found.members()));
                }
            }
            assert(found.members() =~= ancestors_of(edges, passport@));
        }
        found
    }

    /// Adds the parents of the passport and of what was found; tells whether
    /// anything was added.
    fn add_parents(&self, passport: &PassportId, found: &mut StringSet) -> (r: bool)
        requires
            old(found).members().subset_of(edge_parents(self.spec_edges())),
            forall|x: Seq<char>| #[trigger]
                old(found).members().contains(x) ==> is_ancestor(self.spec_edges(), passport@, x),
        ensures
            final(found).members().subset_of(edge_parents(self.spec_edges())),
            forall|x: Seq<char>| #[trigger]
                final(found).members().contains(x) ==> is_ancestor(
                    self.spec_edges(),
                    passport@,
                    x,
                ),
            r ==> edge_parents(self.spec_edges()).difference(final(found).members()).len()
                < edge_parents(self.spec_edges()).difference(old(found).members()).len(),
            !r ==> final(found).members() == old(found).members() && closed_above(
                self.spec_edges(),
                passport@,
                final(found).members(),
            ),
    {
        let ghost edges = self.spec_edges();
        let ghost parents = edge_parents(edges);
        let ghost start = found.members();
        let mut changed = false;
        let mut i: usize = 0;
        while i < self.edges.len()
            invariant
                i <= self.edges.len(),
                edges == self.spec_edges(),
                parents == edge_parents(edges),
                parents.finite(),
                found.members().subset_of(parents),
                forall|x: Seq<char>| #[trigger]
                    found.members().contains(x) ==> is_ancestor(edges, passport@, x),
                changed ==> parents.difference(found.members()).len() < parents.difference(
                    start,
                ).len(),
                !changed ==> found.members() == start && forall|k: int|
                    0 <= k < i && ((#[trigger] edges[k]).0 == passport@ || start.contains(
                        edges[k].0,
                    )) ==> start.contains(edges[k].1),
            decreases self.edges.len() - i,
        {
            let (child, parent) = &self.edges[i];
            assert(edges[i as int] == (child@, parent@));
            if (child.same(passport) || found.contains(child.as_str())) && !found.contains(
                parent.as_str(),
            ) {
                let ghost before = found.members();
                found.insert(parent.as_str());
                proof {
                    let all = edges.map_values(|e: (Seq<char>, Seq<char>)| e.1);
                    assert(all[i as int] == parent@);
                    assert(parents.contains(parent@));
                    assert(parents.difference(found.members()) =~= parents.difference(
                        before,
                    ).remove(parent@));
                    assert(parents.difference(before).contains(parent@));
                    assert(is_ancestor(edges, passport@, parent@)) by {
                        assert forall|s: Set<Seq<char>>| #[trigger]
                            closed_above(edges, passport@, s) implies s.contains(parent@) by {
                            if before.contains(child@) {
                                assert(is_ancestor(edges, passport@, child@));
                            }
                        }
                    }
                }
                changed = true;
            }
            i += 1;
        }
        changed
    }
}

} // verus!
