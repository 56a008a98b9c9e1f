//! Coverage of the ancestry: every edge upstream of a passport is graded by the
//! evidence that the verifier holds for it. A gap is stated, and hides nothing
//! behind it.

use vstd::prelude::*;

use crate::graph::{GraphView, TrustGraph};
use crate::lineage::{closed_above, is_ancestor};
use crate::sets::{join, joined_texts, lists, texts};
use crate::sovereign::{CoverageGrade, SovereignAttestation};
use crate::text::{cat2, cat3, cat4, cat5, chars_of, count, decimal, same_text, string_of};

pub use crate::sovereign::CoverageGrade as EvidenceKind;

verus! {

/// An edge of the ancestry: what one passport was made from.
#[derive(Debug, PartialEq, Eq)]
pub struct AncestryEdge {
    /// The passport upstream.
    pub ancestor: String,
    /// The passport downstream.
    pub descendant: String,
    /// The relationship.
    pub relationship: String,
}

impl Clone for AncestryEdge {
    fn clone(&self) -> (r: AncestryEdge)
        ensures
            r == *self,
    {
        AncestryEdge {
            ancestor: self.ancestor.clone(),
            descendant: self.descendant.clone(),
            relationship: self.relationship.clone(),
        }
    }
}

/// The evidence for an edge.
#[derive(Debug)]
pub enum EdgeEvidence {
    /// The ancestor's contents were seen.
    Open {
        /// The contents.
        bytes: Vec<u8>,
    },
    /// The ancestor is sealed, and an attestation speaks for it.
    Sealed {
        /// The attestation.
        attestation: SovereignAttestation,
    },
    /// There is no evidence.
    Missing {
        /// Why.
        reason: String,
    },
}

/// A graded edge.
#[derive(Debug, Clone, PartialEq, Eq)]
pub struct GradedEdge {
    /// The edge.
    pub edge: AncestryEdge,
    /// How it is covered.
    pub coverage: EvidenceKind,
    /// What was seen, who attests, or why there is a gap.
    pub reading: String,
}

/// How evidence covers an edge.
pub open spec fn coverage_of(evidence: EdgeEvidence, trust: GraphView) -> CoverageGrade {
    match evidence {
        EdgeEvidence::Open { bytes } => CoverageGrade::VerifiedDirect,
        EdgeEvidence::Sealed { attestation } => if attestation.check(trust) is Ok {
            CoverageGrade::AttestedByAuthority
        } else {
            CoverageGrade::ExplicitlyUnavailable
        },
        EdgeEvidence::Missing { reason } => CoverageGrade::ExplicitlyUnavailable,
    }
}

/// What the evidence for an edge says.
pub open spec fn reading_of(evidence: EdgeEvidence, trust: GraphView) -> Seq<char> {
    match evidence {
        EdgeEvidence::Open { bytes } => "open evidence ("@ + decimal(bytes@.len())
            + " bytes) seen"@,
        EdgeEvidence::Sealed { attestation } => match attestation.check(trust) {
            Ok(_) => "sealed upstream; attested by `"@ + attestation.service@ + "` (as of "@
                + attestation.statement.as_of@ + ")"@,
            Err(e) => "attestation does not verify: "@ + e.text(),
        },
        EdgeEvidence::Missing { reason } => reason@,
    }
}

/// Whether a graded edge is what evidence makes of an edge.
pub open spec fn graded_by(
    graded: GradedEdge,
    edge: AncestryEdge,
    evidence: EdgeEvidence,
    trust: GraphView,
) -> bool {
    &&& graded.edge == edge
    &&& graded.coverage == coverage_of(evidence, trust)
    &&& graded.reading@ == reading_of(evidence, trust)
}

/// Grades an edge by the evidence for it.
pub fn grade_edge(edge: &AncestryEdge, evidence: EdgeEvidence, trust: &TrustGraph) -> (r:
    GradedEdge)
    ensures
        graded_by(r, *edge, evidence, trust@),
{
    match evidence {
        EdgeEvidence::Open { bytes } => {
            let n = count(bytes.len());
            GradedEdge {
                edge: edge.clone(),
                coverage: CoverageGrade::VerifiedDirect,
                reading: cat3("open evidence (", n.as_str(), " bytes) seen"),
            }
        },
        EdgeEvidence::Sealed { attestation } => match attestation.verify(trust) {
            Ok(_) => GradedEdge {
                edge: edge.clone(),
                coverage: CoverageGrade::AttestedByAuthority,
                reading: cat5(
                    "sealed upstream; attested by `",
                    attestation.service.as_str(),
                    "` (as of ",
                    attestation.statement.as_of.as_str(),
                    ")",
                ),
            },
            Err(e) => {
                let why = e.to_string();
                GradedEdge {
                    edge: edge.clone(),
                    coverage: CoverageGrade::ExplicitlyUnavailable,
                    reading: cat2("attestation does not verify: ", why.as_str()),
                }
            },
        },
        EdgeEvidence::Missing { reason } => GradedEdge {
            edge: edge.clone(),
            coverage: CoverageGrade::ExplicitlyUnavailable,
            reading: reason,
        },
    }
}

/// The part of a text after its last slash.
pub open spec fn after_slash(s: Seq<char>) -> Seq<char>
    decreases s.len(),
{
    if s.len() == 0 || s.last() == '/' {
        Seq::empty()
    } else {
        after_slash(s.drop_last()).push(s.last())
    }
}

proof fn lemma_after_slash(s: Seq<char>, i: int)
    requires
        0 <= i <= s.len(),
        forall|k: int| i <= k < s.len() ==> s[k] != '/',
        i == 0 || s[i - 1] == '/',
    ensures
        after_slash(s) == s.skip(i),
    decreases s.len(),
{
    if i == s.len() {
        assert(s.skip(i) =~= Seq::<char>::empty());
    } else {
        lemma_after_slash(s.drop_last(), i);
        assert(s.drop_last().skip(i).push(s.last()) =~= s.skip(i));
    }
}

fn short_id(id: &str) -> (r: String)
    ensures
        r@ == after_slash(id@),
{
    let c = chars_of(id);
    let mut i: usize = c.len();
    while i > 0 && c[i - 1] != '/'
        invariant
            i <= c.len(),
            forall|k: int| i <= k < c@.len() ==> c@[k] != '/',
        decreases i,
    {
        i -= 1;
    }
    proof {
        lemma_after_slash(c@, i as int);
    }
    let r = string_of(vstd::slice::slice_subrange(c.as_slice(), i, c.len()));
    assert(r@ =~= c@.skip(i as int));
    r
}

/// The coverage of a passport's ancestry.
#[derive(Debug, Clone, PartialEq, Eq)]
pub struct ProvenanceCoverage {
    /// The passport.
    pub subject: String,
    /// The graded edges, breadth-first from the passport.
    pub edges: Vec<GradedEdge>,
}

/// One graded edge in words.
pub open spec fn edge_text(g: GradedEdge) -> Seq<char> {
    after_slash(g.edge.ancestor@) + "→"@ + (after_slash(g.edge.descendant@) + " ("@
        + g.edge.relationship@ + "): "@ + g.coverage.spec_token())
}

impl ProvenanceCoverage {
    /// The coverage in one line.
    pub open spec fn line(self) -> Seq<char> {
        "ancestry of "@ + self.subject@ + ": "@ + joined_texts(
            self.edges@.map_values(|g: GradedEdge| edge_text(g)),
            " | "@,
        )
    }

    /// The coverage in one line.
    pub fn summary(&self) -> (r: String)
        ensures
            r@ == self.line(),
    {
        let ghost want = self.edges@.map_values(|g: GradedEdge| edge_text(g));
        let mut parts: Vec<String> = Vec::new();
        let mut i: usize = 0;
        while i < self.edges.len()
            invariant
                i <= self.edges.len(),
                want == self.edges@.map_values(|g: GradedEdge| edge_text(g)),
                texts(parts@) =~= want.take(i as int),
            decreases self.edges.len() - i,
        {
            let g = &self.edges[i];
            let ghost before = texts(parts@);
            let up = short_id(g.edge.ancestor.as_str());
            let down = short_id(g.edge.descendant.as_str());
            let rest = cat5(
                down.as_str(),
                " (",
                g.edge.relationship.as_str(),
                "): ",
                g.coverage.token(),
            );
            let part = cat3(up.as_str(), "→", rest.as_str());
            parts.push(part);
            assert(part@ == edge_text(*g));
            assert(texts(parts@) =~= before.push(edge_text(*g)));
            i += 1;
        }
        assert(texts(parts@) =~= want);
        let list = join(&parts, " | ");
        cat4("ancestry of ", self.subject.as_str(), ": ", list.as_str())
    }
}

/// The edges as pairs of descendant and ancestor.
pub open spec fn edge_pairs(s: Seq<AncestryEdge>) -> Seq<(Seq<char>, Seq<char>)> {
    s.map_values(|e: AncestryEdge| (e.descendant@, e.ancestor@))
}

/// The state of the walk upstream.
#[verifier::ext_equal]
pub struct WalkState {
    /// The passports visited, in the order in which they were reached.
    pub visited: Seq<Seq<char>>,
    /// The positions of the edges taken; each led to the visited passport one
    /// place further.
    pub taken: Seq<int>,
    /// The places among the visited passports from which they were taken.
    pub from: Seq<int>,
}

/// Expands the passport at a place over the first `n` edges: every edge from it
/// to an ancestor that was not visited is taken.
pub open spec fn expand(
    pairs: Seq<(Seq<char>, Seq<char>)>,
    place: int,
    n: int,
    state: WalkState,
) -> WalkState
    decreases n,
{
    if n <= 0 {
        state
    } else {
        let s = expand(pairs, place, n - 1, state);
        let e = pairs[n - 1];
        if e.0 == state.visited[place] && !s.visited.contains(e.1) {
            WalkState {
                visited: s.visited.push(e.1),
                taken: s.taken.push(n - 1),
                from: s.from.push(place),
            }
        } else {
            s
        }
    }
}

/// The number of edges to ancestors that were not visited.
pub open spec fn unvisited(pairs: Seq<(Seq<char>, Seq<char>)>, visited: Seq<Seq<char>>) -> nat
    decreases pairs.len(),
{
    if pairs.len() == 0 {
        0
    } else {
        unvisited(pairs.drop_last(), visited) + if visited.contains(pairs.last().1) {
            0nat
        } else {
            1nat
        }
    }
}

proof fn lemma_unvisited_push(
    pairs: Seq<(Seq<char>, Seq<char>)>,
    visited: Seq<Seq<char>>,
    x: Seq<char>,
)
    ensures
        unvisited(pairs, visited.push(x)) <= unvisited(pairs, visited),
        !visited.contains(x) && (exists|i: int| 0 <= i < pairs.len() && (#[trigger] pairs[i]).1 == x)
            ==> unvisited(pairs, visited.push(x)) < unvisited(pairs, visited),
    decreases pairs.len(),
{
    if pairs.len() > 0 {
        lemma_unvisited_push(pairs.drop_last(), visited, x);
        let more = visited.push(x);
        assert(more[visited.len() as int] == x);
        assert forall|y: Seq<char>| visited.contains(y) implies #[trigger] more.contains(y) by {
            let k = visited.index_of(y);
            assert(more[k] == y);
        }
        if !visited.contains(x) && exists|i: int|
            0 <= i < pairs.len() && (#[trigger] pairs[i]).1 == x {
            let i = choose|i: int| 0 <= i < pairs.len() && (#[trigger] pairs[i]).1 == x;
            if i < pairs.len() - 1 {
                assert(pairs.drop_last()[i] == pairs[i]);
            }
        }
    }
}

proof fn lemma_expand(
    pairs: Seq<(Seq<char>, Seq<char>)>,
    place: int,
    n: int,
    state: WalkState,
)
    requires
        0 <= n <= pairs.len(),
    ensures
        ({
            let s = expand(pairs, place, n, state);
            &&& unvisited(pairs, s.visited) <= unvisited(pairs, state.visited)
            &&& unvisited(pairs, s.visited) < unvisited(pairs, state.visited) || s.visited
                == state.visited
            &&& s.visited.len() >= state.visited.len()
            &&& s.visited.take(state.visited.len() as int) == state.visited
        }),
    decreases n,
{
    if n > 0 {
        lemma_expand(pairs, place, n - 1, state);
        let s = expand(pairs, place, n - 1, state);
        let e = pairs[n - 1];
        lemma_unvisited_push(pairs, s.visited, e.1);
        assert(s.visited.push(e.1).take(state.visited.len() as int) =~= s.visited.take(
            state.visited.len() as int,
        ));
    } else {
        assert(state.visited.take(state.visited.len() as int) =~= state.visited);
    }
}

/// The walk from a state on, in which the passports before a place were
/// expanded: it expands the oldest of the others, and goes on.
pub open spec fn walk(pairs: Seq<(Seq<char>, Seq<char>)>, state: WalkState, place: int) -> WalkState
    decreases unvisited(pairs, state.visited), state.visited.len() - place,
    via walk_decreases
{
    if place < 0 || place >= state.visited.len() {
        state
    } else {
        walk(pairs, expand(pairs, place, pairs.len() as int, state), place + 1)
    }
}

#[via_fn]
proof fn walk_decreases(pairs: Seq<(Seq<char>, Seq<char>)>, state: WalkState, place: int) {
    lemma_expand(pairs, place, pairs.len() as int, state);
}

/// The start of the walk from a passport.
pub open spec fn walk_start(subject: Seq<char>) -> WalkState {
    WalkState { visited: seq![subject], taken: Seq::empty(), from: Seq::empty() }
}

/// The positions of the edges upstream of a passport, breadth-first: level by
/// level, and within a level by the passport that they lead up from, in the
/// order in which these were reached, and for each in the order of the graph.
pub open spec fn upstream(edges: Seq<AncestryEdge>, subject: Seq<char>) -> Seq<int> {
    walk(edge_pairs(edges), walk_start(subject), 0).taken
}

/// Positions as numbers.
pub open spec fn positions(s: Seq<usize>) -> Seq<int> {
    s.map_values(|i: usize| i as int)
}

/// The positions of the edges upstream of a passport, breadth-first. Every
/// passport is visited once, so cycles do no harm.
pub fn upstream_edges(subject: &str, graph: &[AncestryEdge]) -> (r: Vec<usize>)
    ensures
        positions(r@) == upstream(graph@, subject@),
        forall|k: int| 0 <= k < r@.len() ==> (#[trigger] r@[k]) < graph@.len(),
{
    let ghost pairs = edge_pairs(graph@);
    let mut visited: Vec<String> = vec![subject.to_owned()];
    let mut taken: Vec<usize> = Vec::new();
    let mut place: usize = 0;
    let ghost mut state = walk_start(subject@);
    proof {
        assert(texts(visited@) =~= state.visited);
        assert(positions(taken@) =~= state.taken);
    }
    while place < visited.len()
        invariant
            pairs == edge_pairs(graph@),
            place <= visited@.len(),
            texts(visited@) == state.visited,
            positions(taken@) == state.taken,
            walk(pairs, walk_start(subject@), 0) == walk(pairs, state, place as int),
            forall|k: int| 0 <= k < taken@.len() ==> (#[trigger] taken@[k]) < graph@.len(),
        decreases unvisited(pairs, state.visited), visited.len() - place,
    {
        let current = visited[place].clone();
        assert(state.visited[place as int] == current@);
        assert(visited@.len() == state.visited.len());
        let mut i: usize = 0;
        while i < graph.len()
            invariant
                i <= graph.len(),
                pairs == edge_pairs(graph@),
                place < state.visited.len(),
                state.visited[place as int] == current@,
                texts(visited@) == expand(pairs, place as int, i as int, state).visited,
                positions(taken@) == expand(pairs, place as int, i as int, state).taken,
                forall|k: int| 0 <= k < taken@.len() ==> (#[trigger] taken@[k]) < graph@.len(),
            decreases graph.len() - i,
        {
            let edge = &graph[i];
            assert(pairs[i as int] == (edge.descendant@, edge.ancestor@));
            if same_text(edge.descendant.as_str(), current.as_str()) && !lists(
                visited.as_slice(),
                edge.ancestor.as_str(),
            ) {
                let ghost v = texts(visited@);
                let ghost t = positions(taken@);
                visited.push(edge.ancestor.clone());
                taken.push(i);
                assert(texts(visited@) =~= v.push(edge.ancestor@));
                assert(positions(taken@) =~= t.push(i as int));
            }
            i += 1;
        }
        proof {
            lemma_expand(pairs, place as int, pairs.len() as int, state);
            state = expand(pairs, place as int, pairs.len() as int, state);
            assert(visited@.len() == state.visited.len());
        }
        place += 1;
    }
    assert(visited@.len() == state.visited.len());
    taken
}

/// Whether a graded edge is what some evidence of a source makes of an edge.
pub open spec fn graded_from<F: Fn(&AncestryEdge) -> EdgeEvidence>(
    evidence_for: F,
    graded: GradedEdge,
    edge: AncestryEdge,
    trust: GraphView,
) -> bool {
    exists|evidence: EdgeEvidence|
        call_ensures(evidence_for, (&edge,), evidence) && #[trigger] graded_by(
            graded,
            edge,
            evidence,
            trust,
        )
}

/// Walks the ancestry of a passport upstream, breadth-first, and grades each
/// edge by the evidence for it.
pub fn traverse<F: Fn(&AncestryEdge) -> EdgeEvidence>(
    subject: &str,
    graph: &[AncestryEdge],
    evidence_for: F,
    trust: &TrustGraph,
) -> (r: ProvenanceCoverage)
    requires
        forall|e: &AncestryEdge| #[trigger] call_requires(evidence_for, (e,)),
    ensures
        r.subject@ == subject@,
        r.edges@.len() == upstream(graph@, subject@).len(),
        forall|k: int|
            0 <= k < r.edges@.len() ==> graded_from(
                evidence_for,
                #[trigger] r.edges@[k],
                graph@[upstream(graph@, subject@)[k]],
                trust@,
            ),
{
    let order = upstream_edges(subject, graph);
    let ghost ups = upstream(graph@, subject@);
    let mut edges: Vec<GradedEdge> = Vec::new();
    let mut i: usize = 0;
    while i < order.len()
        invariant
            i <= order.len(),
            positions(order@) == ups,
            edges@.len() == i,
            forall|k: int| 0 <= k < order@.len() ==> (#[trigger] order@[k]) < graph@.len(),
            forall|e: &AncestryEdge| #[trigger] call_requires(evidence_for, (e,)),
            forall|k: int|
                0 <= k < i ==> graded_from(
                    evidence_for,
                    #[trigger] edges@[k],
                    graph@[ups[k]],
                    trust@,
                ),
        decreases order.len() - i,
    {
        let edge = &graph[order[i]];
        assert(ups[i as int] == order@[i as int]);
        let evidence = evidence_for(edge);
        let ghost e = evidence;
        let graded = grade_edge(edge, evidence, trust);
        let ghost before = edges@;
        edges.push(graded);
        proof {
            assert(graded_by(edges@[i as int], graph@[ups[i as int]], e, trust@));
            assert(graded_from(evidence_for, edges@[i as int], graph@[ups[i as int]], trust@));
        }
        i += 1;
    }
    assert(order@.len() == positions(order@).len());
    ProvenanceCoverage { subject: subject.to_owned(), edges }
}

/// Whether an edge leads to a passport that was visited, from a place no later
/// than a given one.
spec fn reached(
    pairs: Seq<(Seq<char>, Seq<char>)>,
    s: WalkState,
    i: int,
    place: int,
) -> bool {
    exists|q: int|
        0 <= q < s.visited.len() && #[trigger] s.visited[q] == pairs[i].1 && (q == 0 || s.from[q
            - 1] <= place)
}

/// What holds of every state of a walk in which the passports before a place
/// were expanded, and the one at it over the first `n` edges.
spec fn sound(
    pairs: Seq<(Seq<char>, Seq<char>)>,
    subject: Seq<char>,
    s: WalkState,
    place: int,
    n: int,
) -> bool {
    &&& s.visited.len() == s.taken.len() + 1
    &&& s.from.len() == s.taken.len()
    &&& s.visited[0] == subject
    &&& s.visited.no_duplicates()
    &&& forall|k: int|
        0 <= k < s.taken.len() ==> 0 <= #[trigger] s.taken[k] < pairs.len()
            && pairs[s.taken[k]].1 == s.visited[k + 1] && 0 <= s.from[k] <= k && s.from[k] <= place
            && pairs[s.taken[k]].0 == s.visited[s.from[k]] && (s.from[k] == place ==> s.taken[k]
            < n)
    &&& forall|j: int, k: int|
        0 <= j < k < s.taken.len() ==> #[trigger] s.from[j] <= #[trigger] s.from[k] && (s.from[j]
            == s.from[k] ==> s.taken[j] < s.taken[k])
    &&& forall|m: int, i: int|
        0 <= m <= place && m < s.visited.len() && 0 <= i < pairs.len() && (#[trigger] pairs[i]).0
            == #[trigger] s.visited[m] && (m < place || i < n) ==> reached(pairs, s, i, m)
}

proof fn lemma_expand_sound(
    pairs: Seq<(Seq<char>, Seq<char>)>,
    subject: Seq<char>,
    place: int,
    n: int,
    state: WalkState,
)
    requires
        0 <= n <= pairs.len(),
        0 <= place < state.visited.len(),
        sound(pairs, subject, state, place, 0),
    ensures
        sound(pairs, subject, expand(pairs, place, n, state), place, n),
        expand(pairs, place, n, state).visited.len() >= state.visited.len(),
        expand(pairs, place, n, state).visited[place] == state.visited[place],
    decreases n,
{
    if n > 0 {
        lemma_expand_sound(pairs, subject, place, n - 1, state);
        let s = expand(pairs, place, n - 1, state);
        let t = expand(pairs, place, n, state);
        let e = pairs[n - 1];
        if e.0 == state.visited[place] && !s.visited.contains(e.1) {
            let last = s.taken.len() as int;
            assert(t.visited.no_duplicates()) by {
                assert forall|a: int, b: int|
                    0 <= a < t.visited.len() && 0 <= b < t.visited.len() && a
                        != b implies t.visited[a] != t.visited[b] by {
                    if a < s.visited.len() && b < s.visited.len() {
                        assert(s.visited[a] != s.visited[b]);
                    } else if a < s.visited.len() {
                        assert(s.visited.contains(s.visited[a]));
                    } else if b < s.visited.len() {
                        assert(s.visited.contains(s.visited[b]));
                    }
                }
            }
            assert forall|k: int| 0 <= k < t.taken.len() implies 0 <= #[trigger] t.taken[k]
                < pairs.len() && pairs[t.taken[k]].1 == t.visited[k + 1] && 0 <= t.from[k] <= k
                && t.from[k] <= place && pairs[t.taken[k]].0 == t.visited[t.from[k]] && (
            t.from[k] == place ==> t.taken[k] < n) by {
                if k < last {
                    assert(t.taken[k] == s.taken[k]);
                    assert(t.from[k] == s.from[k]);
                }
            }
            assert forall|j: int, k: int|
                0 <= j < k < t.taken.len() implies #[trigger] t.from[j] <= #[trigger] t.from[k] && (
            t.from[j] == t.from[k] ==> t.taken[j] < t.taken[k]) by {
                assert(t.from[j] == s.from[j] && 0 <= s.taken[j]);
                if k < last {
                    assert(t.from[k] == s.from[k]);
                }
            }
            assert forall|m: int, i: int|
                0 <= m <= place && m < t.visited.len() && 0 <= i < pairs.len() && (
                #[trigger] pairs[i]).0 == #[trigger] t.visited[m] && (m < place || i
                    < n) implies reached(pairs, t, i, m) by {
                assert(t.visited[m] == s.visited[m]);
                if m == place && i == n - 1 {
                    assert(t.visited[last + 1] == pairs[i].1);
                } else {
                    assert(reached(pairs, s, i, m));
                    let q = choose|q: int|
                        0 <= q < s.visited.len() && #[trigger] s.visited[q] == pairs[i].1 && (q
                            == 0 || s.from[q - 1] <= m);
                    assert(t.visited[q] == pairs[i].1);
                }
            }
        } else {
            assert forall|m: int, i: int|
                0 <= m <= place && m < t.visited.len() && 0 <= i < pairs.len() && (
                #[trigger] pairs[i]).0 == #[trigger] t.visited[m] && (m < place || i
                    < n) implies reached(pairs, t, i, m) by {
                if m == place && i == n - 1 {
                    let q = s.visited.index_of(e.1);
                    assert(t.visited[q] == pairs[i].1);
                    if q > 0 {
                        assert(0 <= s.taken[q - 1]);
                    }
                }
            }
        }
    }
}

proof fn lemma_walk_sound(
    pairs: Seq<(Seq<char>, Seq<char>)>,
    subject: Seq<char>,
    state: WalkState,
    place: int,
)
    requires
        0 <= place <= state.visited.len(),
        sound(pairs, subject, state, place, 0),
    ensures
        sound(
            pairs,
            subject,
            walk(pairs, state, place),
            walk(pairs, state, place).visited.len() as int,
            0,
        ),
    decreases unvisited(pairs, state.visited), state.visited.len() - place,
{
    if place < state.visited.len() {
        let next = expand(pairs, place, pairs.len() as int, state);
        lemma_expand_sound(pairs, subject, place, pairs.len() as int, state);
        lemma_expand(pairs, place, pairs.len() as int, state);
        assert(sound(pairs, subject, next, place + 1, 0));
        lemma_walk_sound(pairs, subject, next, place + 1);
    }
}

/// The end of the walk from a passport.
spec fn walk_end(pairs: Seq<(Seq<char>, Seq<char>)>, subject: Seq<char>) -> WalkState {
    walk(pairs, walk_start(subject), 0)
}

proof fn lemma_walk_end(pairs: Seq<(Seq<char>, Seq<char>)>, subject: Seq<char>)
    ensures
        sound(
            pairs,
            subject,
            walk_end(pairs, subject),
            walk_end(pairs, subject).visited.len() as int,
            0,
        ),
{
    lemma_walk_sound(pairs, subject, walk_start(subject), 0);
}

proof fn lemma_visited_is_ancestor(
    pairs: Seq<(Seq<char>, Seq<char>)>,
    subject: Seq<char>,
    s: WalkState,
    k: int,
)
    requires
        sound(pairs, subject, s, s.visited.len() as int, 0),
        0 < k < s.visited.len(),
    ensures
        is_ancestor(pairs, subject, s.visited[k]),
    decreases k,
{
    let i = s.taken[k - 1];
    let m = s.from[k - 1];
    if m > 0 {
        lemma_visited_is_ancestor(pairs, subject, s, m);
    }
    assert forall|u: Set<Seq<char>>| #[trigger] closed_above(pairs, subject, u) implies u.contains(
        pairs[i].1,
    ) by {
        if m > 0 {
            assert(u.contains(pairs[i].0));
        }
    }
}

/// The walk takes exactly one edge to every ancestor of the passport other than
/// itself, and no other: cycles cannot make it loop, and a gap does not hide
/// what is behind it.
pub proof fn the_walk_covers_the_ancestry(edges: Seq<AncestryEdge>, subject: Seq<char>)
    ensures
        forall|k: int|
            0 <= k < upstream(edges, subject).len() ==> 0 <= (#[trigger] upstream(
                edges,
                subject,
            )[k]) < edges.len(),
        forall|i: int, j: int|
            0 <= i < j < upstream(edges, subject).len() ==> edges[#[trigger] upstream(
                edges,
                subject,
            )[i]].ancestor@ != edges[#[trigger] upstream(edges, subject)[j]].ancestor@,
        forall|x: Seq<char>|
            x != subject ==> (#[trigger] is_ancestor(edge_pairs(edges), subject, x) <==> exists|
                k: int,
            |
                0 <= k < upstream(edges, subject).len() && edges[#[trigger] upstream(
                    edges,
                    subject,
                )[k]].ancestor@ == x),
{
    let pairs = edge_pairs(edges);
    let end = walk_end(pairs, subject);
    let ups = upstream(edges, subject);
    lemma_walk_end(pairs, subject);
    assert forall|k: int| 0 <= k < ups.len() implies 0 <= (#[trigger] ups[k]) < edges.len()
        && edges[ups[k]].ancestor@ == end.visited[k + 1] by {
        assert(pairs[end.taken[k]].1 == end.visited[k + 1]);
    }
    assert forall|i: int, j: int| 0 <= i < j < ups.len() implies edges[#[trigger] ups[i]].ancestor@
        != edges[#[trigger] ups[j]].ancestor@ by {
        assert(end.visited[i + 1] != end.visited[j + 1]);
    }
    let seen = end.visited.to_set();
    assert(closed_above(pairs, subject, seen)) by {
        assert(end.visited.contains(end.visited[0]));
        assert forall|i: int|
            0 <= i < pairs.len() && ((#[trigger] pairs[i]).0 == subject || seen.contains(
                pairs[i].0,
            )) implies seen.contains(pairs[i].1) by {
            assert(end.visited.contains(pairs[i].0));
            let m = end.visited.index_of(pairs[i].0);
            assert(pairs[i].0 == end.visited[m]);
            assert(reached(pairs, end, i, m));
        }
    }
    assert forall|x: Seq<char>| x != subject implies (#[trigger] is_ancestor(pairs, subject, x)
        <==> exists|k: int|
        0 <= k < ups.len() && edges[#[trigger] ups[k]].ancestor@ == x) by {
        if is_ancestor(pairs, subject, x) {
            assert(seen.contains(x));
            let k = end.visited.index_of(x);
            assert(end.visited[k] == x);
            assert(k > 0);
            assert(edges[ups[k - 1]].ancestor@ == x);
        }
        if exists|k: int| 0 <= k < ups.len() && edges[#[trigger] ups[k]].ancestor@ == x {
            let k = choose|k: int| 0 <= k < ups.len() && edges[#[trigger] ups[k]].ancestor@ == x;
            lemma_visited_is_ancestor(pairs, subject, end, k + 1);
        }
    }
}

/// Whether a passport can be reached upstream of another in at most `n` steps.
pub open spec fn within(
    pairs: Seq<(Seq<char>, Seq<char>)>,
    subject: Seq<char>,
    x: Seq<char>,
    n: nat,
) -> bool
    decreases n,
{
    x == subject || (n > 0 && exists|i: int|
        0 <= i < pairs.len() && (#[trigger] pairs[i]).1 == x && within(
            pairs,
            subject,
            pairs[i].0,
            (n - 1) as nat,
        ))
}

/// The level of the visited passport at a place.
spec fn level(s: WalkState, place: int) -> nat
    decreases place,
{
    if place <= 0 || s.from[place - 1] < 0 || s.from[place - 1] >= place {
        0
    } else {
        level(s, s.from[place - 1]) + 1
    }
}

proof fn lemma_levels_ascend(
    pairs: Seq<(Seq<char>, Seq<char>)>,
    subject: Seq<char>,
    s: WalkState,
    a: int,
    b: int,
)
    requires
        sound(pairs, subject, s, s.visited.len() as int, 0),
        0 <= a <= b < s.visited.len(),
    ensures
        level(s, a) <= level(s, b),
    decreases b,
{
    if b > 0 {
        assert(0 <= s.taken[b - 1]);
    }
    if 0 < a < b {
        assert(0 <= s.taken[a - 1] && 0 <= s.taken[b - 1]);
        assert(s.from[a - 1] <= s.from[b - 1]);
        lemma_levels_ascend(pairs, subject, s, s.from[a - 1], s.from[b - 1]);
    }
}

proof fn lemma_within_its_level(
    pairs: Seq<(Seq<char>, Seq<char>)>,
    subject: Seq<char>,
    s: WalkState,
    a: int,
    n: nat,
)
    requires
        sound(pairs, subject, s, s.visited.len() as int, 0),
        0 <= a < s.visited.len(),
        level(s, a) <= n,
    ensures
        within(pairs, subject, s.visited[a], n),
    decreases a,
{
    if a > 0 {
        let i = s.taken[a - 1];
        assert(pairs[i].1 == s.visited[a]);
        lemma_within_its_level(pairs, subject, s, s.from[a - 1], (n - 1) as nat);
    }
}

proof fn lemma_no_closer(
    pairs: Seq<(Seq<char>, Seq<char>)>,
    subject: Seq<char>,
    s: WalkState,
    x: Seq<char>,
    n: nat,
) -> (a: int)
    requires
        sound(pairs, subject, s, s.visited.len() as int, 0),
        within(pairs, subject, x, n),
    ensures
        0 <= a < s.visited.len(),
        s.visited[a] == x,
        level(s, a) <= n,
    decreases n,
{
    if x == subject {
        0
    } else {
        let i = choose|i: int|
            0 <= i < pairs.len() && (#[trigger] pairs[i]).1 == x && within(
                pairs,
                subject,
                pairs[i].0,
                (n - 1) as nat,
            );
        let m = lemma_no_closer(pairs, subject, s, pairs[i].0, (n - 1) as nat);
        assert(pairs[i].0 == s.visited[m]);
        assert(reached(pairs, s, i, m));
        let q = choose|q: int|
            0 <= q < s.visited.len() && #[trigger] s.visited[q] == pairs[i].1 && (q == 0 || s.from[q
                - 1] <= m);
        if q > 0 {
            assert(0 <= s.taken[q - 1]);
            lemma_levels_ascend(pairs, subject, s, s.from[q - 1], m);
        }
        q
    }
}

/// The walk goes level by level: of two edges, the earlier one leads to an
/// ancestor that is no further from the passport than the later one does.
pub proof fn the_walk_goes_level_by_level(
    edges: Seq<AncestryEdge>,
    subject: Seq<char>,
    i: int,
    j: int,
    n: nat,
)
    requires
        0 <= i < j < upstream(edges, subject).len(),
        within(
            edge_pairs(edges),
            subject,
            edges[upstream(edges, subject)[j]].ancestor@,
            n,
        ),
    ensures
        within(
            edge_pairs(edges),
            subject,
            edges[upstream(edges, subject)[i]].ancestor@,
            n,
        ),
{
    let pairs = edge_pairs(edges);
    let end = walk_end(pairs, subject);
    lemma_walk_end(pairs, subject);
    assert(pairs[end.taken[i]].1 == end.visited[i + 1]);
    assert(pairs[end.taken[j]].1 == end.visited[j + 1]);
    let a = lemma_no_closer(pairs, subject, end, end.visited[j + 1], n);
    assert(a == j + 1);
    lemma_levels_ascend(pairs, subject, end, i + 1, j + 1);
    lemma_within_its_level(pairs, subject, end, i + 1, n);
}

/// Within the walk, edges that lead up from the same passport come in the order
/// of the graph; edges that lead up from different ones come in the order in
/// which the walk reached these, the passport itself first.
pub proof fn the_walk_keeps_the_order_of_the_graph(
    edges: Seq<AncestryEdge>,
    subject: Seq<char>,
    i: int,
    j: int,
)
    requires
        0 <= i < j < upstream(edges, subject).len(),
    ensures
        ({
            let ups = upstream(edges, subject);
            let one = edges[ups[i]].descendant@;
            let other = edges[ups[j]].descendant@;
            if one == other {
                ups[i] < ups[j]
            } else {
                exists|b: int|
                    0 <= b < j && edges[#[trigger] ups[b]].ancestor@ == other && (one == subject
                        || exists|a: int|
                        0 <= a < b && edges[#[trigger] ups[a]].ancestor@ == one)
            }
        }),
{
    let pairs = edge_pairs(edges);
    let end = walk_end(pairs, subject);
    let ups = upstream(edges, subject);
    lemma_walk_end(pairs, subject);
    let one = edges[ups[i]].descendant@;
    let other = edges[ups[j]].descendant@;
    assert(0 <= end.taken[i] && 0 <= end.taken[j]);
    let p = end.from[i];
    let q = end.from[j];
    assert(one == end.visited[p] && other == end.visited[q]);
    if one == other {
        assert(p == q);
    } else {
        assert(p < q);
        assert(pairs[end.taken[q - 1]].1 == end.visited[q]);
        assert(edges[ups[q - 1]].ancestor@ == other);
        if p > 0 {
            assert(pairs[end.taken[p - 1]].1 == end.visited[p]);
            assert(edges[ups[p - 1]].ancestor@ == one);
        }
    }
}

} // verus!
