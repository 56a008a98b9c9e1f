//! What the ancestry of passports promises.

use vstd::prelude::*;

use crate::lineage::{closed_above, edge_parents, is_ancestor};

verus! {

/// Whether a list of edges leads from a passport to one that went into it, each
/// edge from a passport to one that it was made from.
pub open spec fn descends(
    edges: Seq<(Seq<char>, Seq<char>)>,
    passport: Seq<char>,
    other: Seq<char>,
    chain: Seq<int>,
) -> bool {
    &&& chain.len() > 0
    &&& forall|k: int| 0 <= k < chain.len() ==> 0 <= #[trigger] chain[k] < edges.len()
    &&& edges[chain[0]].0 == passport
    &&& edges[chain[chain.len() - 1]].1 == other
    &&& forall|k: int| 0 < k < chain.len() ==> edges[#[trigger] chain[k]].0 == edges[chain[k - 1]].1
}

/// Whether one passport went into another over some edges.
pub open spec fn went_into(
    edges: Seq<(Seq<char>, Seq<char>)>,
    passport: Seq<char>,
    other: Seq<char>,
) -> bool {
    exists|chain: Seq<int>| #[trigger] descends(edges, passport, other, chain)
}

proof fn lemma_chain(
    edges: Seq<(Seq<char>, Seq<char>)>,
    passport: Seq<char>,
    s: Set<Seq<char>>,
    chain: Seq<int>,
    k: int,
)
    requires
        closed_above(edges, passport, s),
        chain.len() > 0,
        forall|k: int| 0 <= k < chain.len() ==> 0 <= #[trigger] chain[k] < edges.len(),
        edges[chain[0]].0 == passport,
        forall|k: int|
            0 < k < chain.len() ==> edges[#[trigger] chain[k]].0 == edges[chain[k - 1]].1,
        0 <= k < chain.len(),
    ensures
        s.contains(edges[chain[k]].1),
    decreases k,
{
    if k > 0 {
        lemma_chain(edges, passport, s, chain, k - 1);
        assert(edges[chain[k]].0 == edges[chain[k - 1]].1);
    }
    assert(0 <= chain[k] < edges.len());
}

/// One passport is an ancestor of another exactly when recorded derivations lead
/// from the other to it, one after the other.
pub proof fn ancestors_went_in_step_by_step(
    edges: Seq<(Seq<char>, Seq<char>)>,
    passport: Seq<char>,
    other: Seq<char>,
)
    ensures
        is_ancestor(edges, passport, other) <==> went_into(edges, passport, other),
{
    if went_into(edges, passport, other) {
        let chain = choose|chain: Seq<int>| #[trigger] descends(edges, passport, other, chain);
        assert forall|s: Set<Seq<char>>| #[trigger] closed_above(edges, passport, s) implies
            s.contains(other) by {
            lemma_chain(edges, passport, s, chain, chain.len() - 1);
        }
    }
    if is_ancestor(edges, passport, other) {
        let s = edge_parents(edges).filter(
            |x: Seq<char>| went_into(edges, passport, x),
        );
        let parents = edges.map_values(|e: (Seq<char>, Seq<char>)| e.1);
        assert forall|i: int|
            0 <= i < edges.len() && ((#[trigger] edges[i]).0 == passport || s.contains(
                edges[i].0,
            )) implies s.contains(edges[i].1) by {
            assert(parents[i] == edges[i].1);
            if edges[i].0 == passport {
                assert(descends(edges, passport, edges[i].1, seq![i]));
            } else {
                let chain = choose|chain: Seq<int>| #[trigger]
                    descends(edges, passport, edges[i].0, chain);
                let more = chain.push(i);
                assert forall|k: int| 0 <= k < more.len() implies 0 <= #[trigger] more[k]
                    < edges.len() by {
                    if k < chain.len() {
                        assert(0 <= chain[k] < edges.len());
                    }
                }
                assert forall|k: int| 0 < k < more.len() implies edges[#[trigger] more[k]].0
                    == edges[more[k - 1]].1 by {
                    if k < chain.len() {
                        assert(edges[chain[k]].0 == edges[chain[k - 1]].1);
                    }
                }
                assert(more[0] == chain[0]);
                assert(descends(edges, passport, edges[i].1, more));
            }
        }
        assert(closed_above(edges, passport, s));
    }
}

} // verus!
