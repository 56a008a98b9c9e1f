//! Searching the graph: reachability, paths, and the resolution of a key to a
//! path from an anchored root.

use vstd::prelude::*;

use crate::graph::walk::{
    acyclic, arrived, continuations, is_simple, is_walk, lemma_single_step,
    lemma_walk_positions, level_of, next_level, paths_below, paths_between, reachable, visited,
    walk_end,
};
use crate::graph::{
    credential_views, owner_of, root_ids, AnchorBundle, CredentialView, DelegationCredential,
    GraphView, NodeId, TrustGraph, TrustPath,
};
use crate::keyring::KeyId;
use crate::scope::{first_failing, DelegationScope, RequestView, ScopeRequest, ScopeView};
use crate::sets::texts;
use crate::text::{cat3, cat5, same_text};
use crate::{ErrorView, SignatifError};

verus! {

/// A list without repetition whose members are all in another list is no longer
/// than that list.
proof fn lemma_unique_no_longer<A>(a: Seq<A>, b: Seq<A>)
    requires
        a.no_duplicates(),
        forall|i: int| 0 <= i < a.len() ==> b.contains(#[trigger] a[i]),
    ensures
        a.len() <= b.len(),
{
    a.unique_seq_to_set();
    b.lemma_cardinality_of_set();
    assert(a.to_set().subset_of(b.to_set()));
    vstd::set_lib::lemma_len_subset(a.to_set(), b.to_set());
}

/// The names that a search from a node can meet.
spec fn names(edges: Seq<CredentialView>, from: Seq<char>) -> Seq<Seq<char>> {
    seq![from] + edges.map_values(|e: CredentialView| e.child)
}

/// A walk from a member of a list that every delegation stays within ends in a
/// member of the list.
proof fn lemma_closed_walk(
    edges: Seq<CredentialView>,
    from: Seq<char>,
    list: Seq<Seq<char>>,
    walk: Seq<int>,
)
    requires
        list.contains(from),
        forall|i: int|
            0 <= i < edges.len() && list.contains((#[trigger] edges[i]).parent) ==> list.contains(
                edges[i].child,
            ),
        is_walk(edges, from, walk),
    ensures
        list.contains(walk_end(edges, from, walk)),
    decreases walk.len(),
{
    if walk.len() > 0 {
        lemma_closed_walk(edges, from, list, walk.drop_last());
        assert(list.contains(edges[walk.last()].parent));
    }
}

/// Whether a list of strings holds a text.
fn holds(list: &Vec<String>, x: &str) -> (r: bool)
    ensures
        r == texts(list@).contains(x@),
{
    let mut i: usize = 0;
    while i < list.len()
        invariant
            i <= list.len(),
            forall|k: int| 0 <= k < i ==> #[trigger] texts(list@)[k] != x@,
        decreases list.len() - i,
    {
        if same_text(list[i].as_str(), x) {
            assert(texts(list@)[i as int] == x@);
            return true;
        }
        i += 1;
    }
    false
}

/// The error of a delegation that would close a cycle.
pub open spec fn cycle_error(cred: CredentialView) -> ErrorView {
    ErrorView::Validation(
        "edge "@ + cred.parent + " -> "@ + cred.child
            + " would close a cycle (trust graph must stay a DAG)"@,
    )
}

/// The error of a delegation whose scope admits nothing.
pub open spec fn contradiction_error(cred: CredentialView) -> ErrorView {
    ErrorView::ScopeViolation(
        "credential "@ + cred.parent + " -> "@ + cred.child
            + " carries a contradictory scope"@,
    )
}

impl GraphView {
    /// The error of adding a delegation, if there is one.
    pub open spec fn edge_error(self, cred: CredentialView) -> Option<ErrorView> {
        if self.node(cred.parent) is None {
            Some(ErrorView::Unknown { kind: "node"@, id: cred.parent })
        } else if self.node(cred.child) is None {
            Some(ErrorView::Unknown { kind: "node"@, id: cred.child })
        } else if cred.scope.contradiction() {
            Some(contradiction_error(cred))
        } else if cred.signatures.len() == 0 {
            Some(
                ErrorView::CredentialSignatureInvalid { parent: cred.parent, child: cred.child },
            )
        } else if reachable(self.edges, cred.child, cred.parent) {
            Some(cycle_error(cred))
        } else {
            None
        }
    }

    /// The effective scope of the first `n` delegations of a path, or the first
    /// error on it: a credential that does not verify, or a scope that does not
    /// narrow.
    pub open spec fn path_scope(self, path: Seq<int>, n: int) -> Result<ScopeView, ErrorView>
        decreases n,
    {
        if n <= 0 {
            Ok(ScopeView::unconstrained())
        } else {
            match self.path_scope(path, n - 1) {
                Err(e) => Err(e),
                Ok(s) => match self.credential_check(self.edges[path[n - 1]]) {
                    Err(e) => Err(e),
                    Ok(_) => s.narrow_to(self.edges[path[n - 1]].scope),
                },
            }
        }
    }

    /// What a path from a root gives for a request: its effective scope, or why
    /// it does not serve.
    pub open spec fn path_check(
        self,
        key_id: Seq<char>,
        request: RequestView,
        bundle: AnchorBundle,
        root: Seq<char>,
        path: Seq<int>,
    ) -> Result<ScopeView, ErrorView> {
        match bundle.anchors(root, request.at) {
            Err(e) => Err(e),
            Ok(_) => match self.path_scope(path, path.len() as int) {
                Err(e) => Err(e),
                Ok(s) => match s.rejecting_layer(request) {
                    Some(layer) => Err(
                        ErrorView::ScopeExcluded {
                            key_id,
                            detail: "effective scope rejects the `"@ + layer
                                + "` layer of the request"@,
                        },
                    ),
                    None => match first_failing(s.conditions, request) {
                        Some(i) => Err(
                            ErrorView::ScopeConditionFailed { condition: s.conditions[i] },
                        ),
                        None => Ok(s),
                    },
                },
            },
        }
    }
}

/// How telling a failure is.
pub open spec fn failure_rank(e: ErrorView) -> int {
    match e {
        ErrorView::ScopeExcluded { .. } => 3,
        ErrorView::ScopeConditionFailed { .. } => 3,
        ErrorView::CredentialSignatureInvalid { .. } => 2,
        ErrorView::ScopeViolation(_) => 1,
        _ => 0,
    }
}

/// Of the failure noted so far and a new one, the more telling; the earlier one
/// where neither is.
pub open spec fn more_telling(best: Option<ErrorView>, e: ErrorView) -> Option<ErrorView> {
    match best {
        None => Some(e),
        Some(b) => if failure_rank(e) > failure_rank(b) {
            Some(e)
        } else {
            Some(b)
        },
    }
}

/// Where a search stands: at a path that serves, or with the most telling
/// failure so far.
#[verifier::ext_equal]
pub enum Search {
    /// A path that serves.
    Found { root: Seq<char>, path: Seq<int>, scope: ScopeView },
    /// No path served yet.
    Failed(Option<ErrorView>),
}

impl GraphView {
    /// A search continued with the first `n` paths from a root.
    pub open spec fn search_paths(
        self,
        key_id: Seq<char>,
        request: RequestView,
        bundle: AnchorBundle,
        root: Seq<char>,
        paths: Seq<Seq<int>>,
        n: int,
        start: Search,
    ) -> Search
        decreases n,
    {
        if n <= 0 {
            start
        } else {
            match self.search_paths(key_id, request, bundle, root, paths, n - 1, start) {
                Search::Found { root: r, path, scope } => Search::Found { root: r, path, scope },
                Search::Failed(best) => match self.path_check(
                    key_id,
                    request,
                    bundle,
                    root,
                    paths[n - 1],
                ) {
                    Ok(scope) => Search::Found { root, path: paths[n - 1], scope },
                    Err(e) => Search::Failed(more_telling(best, e)),
                },
            }
        }
    }

    /// A search over the first `n` roots for a path to a node.
    pub open spec fn search_roots(
        self,
        key_id: Seq<char>,
        request: RequestView,
        bundle: AnchorBundle,
        roots: Seq<Seq<char>>,
        end: Seq<char>,
        n: int,
    ) -> Search
        decreases n,
    {
        if n <= 0 {
            Search::Failed(None)
        } else {
            let paths = paths_between(self.edges, roots[n - 1], end);
            self.search_paths(
                key_id,
                request,
                bundle,
                roots[n - 1],
                paths,
                paths.len() as int,
                self.search_roots(key_id, request, bundle, roots, end, n - 1),
            )
        }
    }

    /// The search for a path from an anchored root to the owner of a key.
    pub open spec fn resolution(
        self,
        key_id: Seq<char>,
        request: RequestView,
        bundle: AnchorBundle,
    ) -> Search {
        match owner_of(self.nodes, key_id) {
            None => Search::Failed(None),
            Some(end) => {
                let roots = root_ids(self.nodes);
                self.search_roots(key_id, request, bundle, roots, end, roots.len() as int)
            },
        }
    }

    /// The error of a key that resolves to no path.
    pub open spec fn resolution_error(
        self,
        key_id: Seq<char>,
        request: RequestView,
        bundle: AnchorBundle,
    ) -> ErrorView {
        match self.resolution(key_id, request, bundle) {
            Search::Failed(Some(e)) => e,
            _ => ErrorView::NoTrustPath { key_id },
        }
    }
}

/// The positions of a path as mathematical integers.
pub open spec fn path_view(p: Seq<usize>) -> Seq<int> {
    p.map_values(|i: usize| i as int)
}

/// The paths of a list as lists of mathematical integers.
pub open spec fn path_views(s: Seq<Vec<usize>>) -> Seq<Seq<int>> {
    s.map_values(|p: Vec<usize>| path_view(p@))
}

impl TrustGraph {
    /// Whether a walk leads from one node to another.
    fn reaches(&self, from: &NodeId, to: &NodeId) -> (r: bool)
        ensures
            r == reachable(self@.edges, from@, to@),
    {
        let ghost edges = self@.edges;
        let mut order: Vec<String> = Vec::new();
        order.push(from.to_string());
        proof {
            assert(texts(order@) =~= seq![from@]);
            let none = Seq::<int>::empty();
            assert(is_walk(edges, from@, none) && walk_end(edges, from@, none) == from@);
            assert(names(edges, from@)[0] == from@);
        }
        let mut i: usize = 0;
        while i < order.len()
            invariant
                edges == credential_views(self.edges@),
                order.len() > 0,
                i <= order.len(),
                texts(order@)[0] == from@,
                texts(order@).no_duplicates(),
                forall|k: int|
                    0 <= k < order@.len() ==> names(edges, from@).contains(
                        #[trigger] texts(order@)[k],
                    ),
                forall|k: int|
                    0 <= k < order@.len() ==> reachable(
                        edges,
                        from@,
                        #[trigger] texts(order@)[k],
                    ),
                forall|k: int, m: int|
                    0 <= k < i && 0 <= m < edges.len() && (#[trigger] edges[m]).parent
                        == #[trigger] texts(order@)[k] ==> texts(order@).contains(edges[m].child),
                order.len() <= edges.len() + 1,
            decreases edges.len() + 1 - i,
        {
            let mut j: usize = 0;
            while j < self.edges.len()
                invariant
                    edges == credential_views(self.edges@),
                    i < order.len(),
                    j <= self.edges.len(),
                    texts(order@)[0] == from@,
                    texts(order@).no_duplicates(),
                    forall|k: int|
                        0 <= k < order@.len() ==> names(edges, from@).contains(
                            #[trigger] texts(order@)[k],
                        ),
                    forall|k: int|
                        0 <= k < order@.len() ==> reachable(
                            edges,
                            from@,
                            #[trigger] texts(order@)[k],
                        ),
                    forall|k: int, m: int|
                        0 <= k < i && 0 <= m < edges.len() && (#[trigger] edges[m]).parent
                            == #[trigger] texts(order@)[k] ==> texts(order@).contains(
                            edges[m].child,
                        ),
                    forall|m: int|
                        0 <= m < j && (#[trigger] edges[m]).parent == texts(order@)[i as int]
                            ==> texts(order@).contains(edges[m].child),
                    order.len() <= edges.len() + 1,
                decreases self.edges.len() - j,
            {
                let e = &self.edges[j];
                assert(edges[j as int] == e@);
                if same_text(e.parent.as_str(), order[i].as_str()) && !holds(
                    &order,
                    e.child.as_str(),
                ) {
                    let ghost before = texts(order@);
                    order.push(e.child.to_string());
                    proof {
                        let after = texts(order@);
                        assert(after =~= before.push(e.child@));
                        assert(names(edges, from@)[j + 1] == e.child@);
                        lemma_single_step(edges, j as int);
                        crate::graph::walk::reachable_is_transitive(
                            edges,
                            from@,
                            before[i as int],
                            e.child@,
                        );
                        assert forall|k: int| 0 <= k < order@.len() implies names(
                            edges,
                            from@,
                        ).contains(#[trigger] after[k]) by {
                            if k < before.len() {
                                assert(after[k] == before[k]);
                            }
                        }
                        assert forall|k: int| 0 <= k < order@.len() implies reachable(
                            edges,
                            from@,
                            #[trigger] after[k],
                        ) by {
                            if k < before.len() {
                                assert(after[k] == before[k]);
                            }
                        }
                        assert(after.no_duplicates()) by {
                            assert forall|a: int, b: int|
                                0 <= a < after.len() && 0 <= b < after.len() && a
                                    != b implies after[a] != after[b] by {
                                if a == before.len() {
                                    assert(before.contains(before[b]));
                                } else if b == before.len() {
                                    assert(before.contains(before[a]));
                                } else {
                                    assert(after[a] == before[a] && after[b] == before[b]);
                                }
                            }
                        }
                        lemma_unique_no_longer(after, names(edges, from@));
                        assert forall|x: Seq<char>| #[trigger] before.contains(x) implies
                            after.contains(x) by {
                            let k = before.index_of(x);
                            assert(after[k] == x);
                        }
                        assert(after.contains(e.child@)) by {
                            assert(after[before.len() as int] == e.child@);
                        }
                        assert forall|k: int, m: int|
                            0 <= k < i && 0 <= m < edges.len() && (#[trigger] edges[m]).parent
                                == #[trigger] after[k] implies after.contains(edges[m].child) by {
                            assert(after[k] == before[k]);
                        }
                        assert(after[i as int] == before[i as int]);
                    }
                }
                j += 1;
            }
            i += 1;
        }
        proof {
            let list = texts(order@);
            assert(list.contains(from@));
            assert forall|m: int|
                0 <= m < edges.len() && list.contains((#[trigger] edges[m]).parent) implies list.contains(
                edges[m].child,
            ) by {
                let k = list.index_of(edges[m].parent);
                assert(edges[m].parent == list[k]);
            }
            if reachable(edges, from@, to@) {
                let w = choose|w: Seq<int>| #[trigger]
                    is_walk(edges, from@, w) && walk_end(edges, from@, w) == to@;
                lemma_closed_walk(edges, from@, list, w);
            }
            if list.contains(to@) {
                let k = list.index_of(to@);
                assert(reachable(edges, from@, list[k]));
            }
        }
        holds(&order, to.as_str())
    }

    /// Adds a delegation. Both nodes must be there, the scope must not be a
    /// contradiction, there must be a signature, and the graph must stay
    /// acyclic. Whether the signatures verify is checked on resolution.
    pub fn add_edge(&mut self, credential: DelegationCredential) -> (r: Result<(), SignatifError>)
        ensures
            r is Err == old(self)@.edge_error(credential@) is Some,
            r matches Err(e) ==> Some(e@) == old(self)@.edge_error(credential@) && *final(self)
                == *old(self),
            r is Ok ==> final(self)@ == (GraphView {
                edges: old(self)@.edges.push(credential@),
                ..old(self)@
            }),
            acyclic(old(self)@.edges) ==> acyclic(final(self)@.edges),
    {
        if self.node(&credential.parent).is_none() {
            return Err(
                SignatifError::Unknown { kind: "node", id: credential.parent.to_string() },
            );
        }
        if self.node(&credential.child).is_none() {
            return Err(SignatifError::Unknown { kind: "node", id: credential.child.to_string() });
        }
        if credential.scope.is_contradiction() {
            return Err(
                SignatifError::ScopeViolation(
                    cat5(
                        "credential ",
                        credential.parent.as_str(),
                        " -> ",
                        credential.child.as_str(),
                        " carries a contradictory scope",
                    ),
                ),
            );
        }
        if credential.signatures.len() == 0 {
            return Err(
                SignatifError::CredentialSignatureInvalid {
                    parent: credential.parent.to_string(),
                    child: credential.child.to_string(),
                },
            );
        }
        if self.reaches(&credential.child, &credential.parent) {
            return Err(
                SignatifError::Validation(
                    cat5(
                        "edge ",
                        credential.parent.as_str(),
                        " -> ",
                        credential.child.as_str(),
                        " would close a cycle (trust graph must stay a DAG)",
                    ),
                ),
            );
        }
        proof {
            if acyclic(self@.edges) {
                crate::graph::walk::adding_an_edge_stays_acyclic(self@.edges, credential@);
            }
        }
        self.edges.push(credential);
        assert(self@.edges =~= old(self)@.edges.push(credential@));
        assert(self@.ids =~= old(self)@.ids);
        assert(self@.nodes =~= old(self)@.nodes);
        Ok(())
    }

    /// Where a walk ends.
    fn end_of<'a>(&'a self, from: &'a NodeId, walk: &Vec<usize>) -> (r: &'a NodeId)
        requires
            forall|i: int| 0 <= i < walk@.len() ==> #[trigger] walk@[i] < self@.edges.len(),
        ensures
            r@ == walk_end(self@.edges, from@, path_view(walk@)),
    {
        if walk.len() == 0 {
            from
        } else {
            let i = walk[walk.len() - 1];
            assert(self@.edges[i as int] == self.edges@[i as int]@);
            assert(path_view(walk@).last() == i);
            &self.edges[i].child
        }
    }

    /// Whether a walk visits a node.
    fn visits(&self, from: &NodeId, walk: &Vec<usize>, node: &NodeId) -> (r: bool)
        requires
            forall|i: int| 0 <= i < walk@.len() ==> #[trigger] walk@[i] < self@.edges.len(),
        ensures
            r == visited(self@.edges, from@, path_view(walk@)).contains(node@),
    {
        let ghost v = visited(self@.edges, from@, path_view(walk@));
        if from.same(node) {
            assert(v[0] == node@);
            return true;
        }
        let mut k: usize = 0;
        while k < walk.len()
            invariant
                k <= walk.len(),
                v == visited(self@.edges, from@, path_view(walk@)),
                forall|i: int| 0 <= i < walk@.len() ==> #[trigger] walk@[i] < self@.edges.len(),
                forall|i: int| 0 <= i <= k ==> #[trigger] v[i] != node@,
            decreases walk.len() - k,
        {
            let i = walk[k];
            assert(self@.edges[i as int] == self.edges@[i as int]@);
            assert(v[k + 1] == self@.edges[i as int].child);
            if self.edges[i].child.same(node) {
                return true;
            }
            k += 1;
        }
        false
    }

    /// The paths from one node to another, as positions of delegations: the
    /// walks that visit no node twice, by length and then by position.
    pub fn paths(&self, from: &NodeId, to: &NodeId) -> (r: Vec<Vec<usize>>)
        ensures
            path_views(r@) == paths_between(self@.edges, from@, to@),
    {
        let ghost edges = self@.edges;
        let mut found: Vec<Vec<usize>> = Vec::new();
        let mut level: Vec<Vec<usize>> = Vec::new();
        level.push(Vec::new());
        proof {
            assert(path_view(level@[0]@) =~= Seq::<int>::empty());
            assert(path_views(level@) =~= seq![Seq::<int>::empty()]);
            assert(path_views(found@) =~= Seq::<Seq<int>>::empty());
        }
        let n = self.edges.len();
        let mut len: usize = 0;
        loop
            invariant_except_break
                edges == self@.edges,
                n == edges.len(),
                len <= n,
                path_views(level@) == level_of(edges, from@, to@, len as nat),
                path_views(found@) == paths_below(edges, from@, to@, len as nat),
                forall|i: int, k: int|
                    0 <= i < level@.len() && 0 <= k < level@[i]@.len() ==> #[trigger] level@[i]@[k]
                        < edges.len(),
            ensures
                path_views(found@) == paths_below(edges, from@, to@, edges.len() + 1),
            decreases n - len,
        {
            let ghost before = path_views(found@);
            let ghost views = path_views(level@);
            let mut next: Vec<Vec<usize>> = Vec::new();
            let mut i: usize = 0;
            proof {
                assert(views.take(0) =~= Seq::<Seq<int>>::empty());
                assert(path_views(next@) =~= Seq::<Seq<int>>::empty());
                assert(before + Seq::<Seq<int>>::empty() =~= before);
            }
            while i < level.len()
                invariant
                    edges == self@.edges,
                    i <= level.len(),
                    views == path_views(level@),
                    forall|a: int, k: int|
                        0 <= a < level@.len() && 0 <= k < level@[a]@.len() ==> #[trigger] level@[a]@[k]
                            < edges.len(),
                    forall|a: int, k: int|
                        0 <= a < next@.len() && 0 <= k < next@[a]@.len() ==> #[trigger] next@[a]@[k]
                            < edges.len(),
                    path_views(found@) == before + arrived(
                        edges,
                        from@,
                        to@,
                        views.take(i as int),
                    ),
                    path_views(next@) == next_level(edges, from@, to@, views.take(i as int)),
                decreases level.len() - i,
            {
                proof {
                    assert(views.take(i + 1).drop_last() =~= views.take(i as int));
                    assert(views.take(i + 1).last() == path_view(level@[i as int]@));
                }
                let walk = &level[i];
                let end = self.end_of(from, walk);
                if end.same(to) {
                    let ghost held = path_views(found@);
                    let copy = walk.clone();
                    assert(copy@ =~= walk@);
                    found.push(copy);
                    assert(path_views(found@) =~= held.push(path_view(walk@)));
                    assert(path_views(found@) =~= before + arrived(
                        edges,
                        from@,
                        to@,
                        views.take(i + 1),
                    ));
                } else {
                    self.continue_walk(from, walk, end, &mut next);
                }
                i += 1;
            }
            proof {
                assert(views.take(i as int) =~= views);
            }
            if len == n {
                break;
            }
            level = next;
            len += 1;
        }
        found
    }

    /// Appends the walks that continue a walk by one delegation.
    fn continue_walk(
        &self,
        from: &NodeId,
        walk: &Vec<usize>,
        end: &NodeId,
        next: &mut Vec<Vec<usize>>,
    )
        requires
            forall|i: int| 0 <= i < walk@.len() ==> #[trigger] walk@[i] < self@.edges.len(),
            end@ == walk_end(self@.edges, from@, path_view(walk@)),
            forall|a: int, k: int|
                0 <= a < old(next)@.len() && 0 <= k < old(next)@[a]@.len() ==> #[trigger] old(
                    next,
                )@[a]@[k] < self@.edges.len(),
        ensures
            path_views(final(next)@) == path_views(old(next)@) + continuations(
                self@.edges,
                from@,
                path_view(walk@),
                self@.edges.len() as int,
            ),
            forall|a: int, k: int|
                0 <= a < final(next)@.len() && 0 <= k < final(next)@[a]@.len()
                    ==> #[trigger] final(next)@[a]@[k] < self@.edges.len(),
    {
        let ghost edges = self@.edges;
        let ghost start = path_views(next@);
        let ghost p = path_view(walk@);
        let mut j: usize = 0;
        assert(start + Seq::<Seq<int>>::empty() =~= start);
        while j < self.edges.len()
            invariant
                edges == self@.edges,
                p == path_view(walk@),
                j <= self.edges.len(),
                forall|i: int| 0 <= i < walk@.len() ==> #[trigger] walk@[i] < edges.len(),
                end@ == walk_end(edges, from@, p),
                path_views(next@) == start + continuations(edges, from@, p, j as int),
                forall|a: int, k: int|
                    0 <= a < next@.len() && 0 <= k < next@[a]@.len() ==> #[trigger] next@[a]@[k]
                        < edges.len(),
            decreases self.edges.len() - j,
        {
            let e = &self.edges[j];
            assert(edges[j as int] == e@);
            if e.parent.same(end) && !self.visits(from, walk, &e.child) {
                let mut longer = walk.clone();
                assert(longer@ =~= walk@);
                longer.push(j);
                let ghost held = path_views(next@);
                let ghost rows = next@;
                assert(path_view(longer@) =~= p.push(j as int));
                next.push(longer);
                proof {
                    assert(path_views(next@) =~= held.push(p.push(j as int)));
                    assert(path_views(next@) =~= start + continuations(
                        edges,
                        from@,
                        p,
                        j + 1,
                    ));
                    assert forall|a: int, k: int|
                        0 <= a < next@.len() && 0 <= k < next@[a]@.len() implies #[trigger] next@[a]@[k]
                        < edges.len() by {
                        if a < rows.len() {
                            assert(next@[a] == rows[a]);
                            assert(rows[a]@[k] < edges.len());
                        } else if k < walk@.len() {
                            assert(next@[a]@[k] == walk@[k]);
                        }
                    }
                }
            }
            j += 1;
        }
    }

    /// The effective scope of a path, or the first error on it.
    fn scope_along(&self, path: &Vec<usize>) -> (r: Result<DelegationScope, SignatifError>)
        requires
            forall|i: int| 0 <= i < path@.len() ==> #[trigger] path@[i] < self@.edges.len(),
        ensures
            r is Ok == self@.path_scope(path_view(path@), path@.len() as int) is Ok,
            r matches Ok(s) ==> self@.path_scope(path_view(path@), path@.len() as int) == Ok::<
                ScopeView,
                ErrorView,
            >(s@),
            r matches Err(e) ==> self@.path_scope(path_view(path@), path@.len() as int) == Err::<
                ScopeView,
                ErrorView,
            >(e@),
    {
        let ghost p = path_view(path@);
        let mut effective = DelegationScope::unconstrained();
        let mut k: usize = 0;
        while k < path.len()
            invariant
                k <= path.len(),
                p == path_view(path@),
                forall|i: int| 0 <= i < path@.len() ==> #[trigger] path@[i] < self@.edges.len(),
                self@.path_scope(p, k as int) == Ok::<ScopeView, ErrorView>(effective@),
            decreases path.len() - k,
        {
            let i = path[k];
            assert(self@.edges[i as int] == self.edges@[i as int]@);
            assert(p[k as int] == i);
            let cred = &self.edges[i];
            if let Err(e) = self.verify_credential(cred) {
                proof {
                    lemma_path_scope_error(self@, p, k + 1, path@.len() as int);
                }
                return Err(e);
            }
            match effective.narrow(&cred.scope) {
                Ok(next) => {
                    effective = next;
                },
                Err(e) => {
                    proof {
                        lemma_path_scope_error(self@, p, k + 1, path@.len() as int);
                    }
                    return Err(e);
                },
            }
            k += 1;
        }
        Ok(effective)
    }

    /// What a path from a root gives for a request.
    fn check_path(
        &self,
        key_id: &KeyId,
        request: &ScopeRequest,
        bundle: &AnchorBundle,
        root: &NodeId,
        path: &Vec<usize>,
    ) -> (r: Result<DelegationScope, SignatifError>)
        requires
            forall|i: int| 0 <= i < path@.len() ==> #[trigger] path@[i] < self@.edges.len(),
        ensures
            match r {
                Ok(s) => self@.path_check(
                    key_id@,
                    request@,
                    *bundle,
                    root@,
                    path_view(path@),
                ) == Ok::<ScopeView, ErrorView>(s@),
                Err(e) => self@.path_check(
                    key_id@,
                    request@,
                    *bundle,
                    root@,
                    path_view(path@),
                ) == Err::<ScopeView, ErrorView>(e@),
            },
    {
        if let Err(e) = bundle.accepts_root(root, request.at) {
            return Err(e);
        }
        let effective = match self.scope_along(path) {
            Err(e) => {
                return Err(e);
            },
            Ok(s) => s,
        };
        if let Some(layer) = effective.rejecting_layer(request) {
            return Err(
                SignatifError::ScopeExcluded {
                    key_id: key_id.to_string(),
                    detail: cat3(
                        "effective scope rejects the `",
                        layer,
                        "` layer of the request",
                    ),
                },
            );
        }
        if let Some(condition) = effective.first_failed_condition(request) {
            return Err(SignatifError::ScopeConditionFailed { condition: condition.clone() });
        }
        Ok(effective)
    }

    /// The credentials on a path.
    fn credentials_on(&self, path: &Vec<usize>) -> (r: Vec<DelegationCredential>)
        requires
            forall|i: int| 0 <= i < path@.len() ==> #[trigger] path@[i] < self@.edges.len(),
        ensures
            credential_views(r@) == path_view(path@).map_values(|i: int| self@.edges[i]),
    {
        let ghost want = path_view(path@).map_values(|i: int| self@.edges[i]);
        let mut out: Vec<DelegationCredential> = Vec::new();
        let mut k: usize = 0;
        while k < path.len()
            invariant
                k <= path.len(),
                want == path_view(path@).map_values(|i: int| self@.edges[i]),
                forall|i: int| 0 <= i < path@.len() ==> #[trigger] path@[i] < self@.edges.len(),
                credential_views(out@) =~= want.take(k as int),
            decreases path.len() - k,
        {
            let i = path[k];
            assert(self@.edges[i as int] == self.edges@[i as int]@);
            assert(want[k as int] == self@.edges[i as int]);
            let ghost before = credential_views(out@);
            out.push(self.edges[i].clone());
            assert(credential_views(out@) =~= before.push(want[k as int]));
            k += 1;
        }
        out
    }

    /// Resolves a key to a path from an anchored root. The roots are tried in
    /// ascending order, the paths from each by length and position; the first
    /// path that serves is returned. If none serves, the error is the most
    /// telling failure: a scope that excludes the request or a condition that
    /// fails before a signature that does not verify, before a scope that does
    /// not narrow, before the rest.
    pub fn resolve(&self, key_id: &KeyId, request: &ScopeRequest, bundle: &AnchorBundle) -> (r:
        Result<TrustPath, SignatifError>)
        ensures
            r is Ok == self@.resolution(key_id@, request@, *bundle) is Found,
            r matches Ok(t) ==> Some(t.end@) == owner_of(self@.nodes, key_id@) && (
            self@.resolution(key_id@, request@, *bundle) matches Search::Found { root, path, scope }
                && t.root@ == root && credential_views(t.credentials@) == path.map_values(
                |i: int| self@.edges[i],
            ) && t.effective_scope@ == scope),
            r matches Err(e) ==> e@ == self@.resolution_error(key_id@, request@, *bundle),
    {
        let end = match self.node_for_key(key_id) {
            None => {
                return Err(SignatifError::NoTrustPath { key_id: key_id.to_string() });
            },
            Some(n) => n,
        };
        let roots = self.roots();
        let ghost ids = root_ids(self@.nodes);
        let mut best: Option<SignatifError> = None;
        let mut i: usize = 0;
        while i < roots.len()
            invariant
                i <= roots.len(),
                ids == root_ids(self@.nodes),
                roots@.map_values(|n: NodeId| n@) == ids,
                owner_of(self@.nodes, key_id@) == Some(end@),
                self@.search_roots(key_id@, request@, *bundle, ids, end@, i as int)
                    == Search::Failed(error_view(best)),
            decreases roots.len() - i,
        {
            let root = &roots[i];
            assert(ids[i as int] == root@);
            let paths = self.paths(root, &end);
            let ghost views = paths_between(self@.edges, root@, end@);
            let ghost start = Search::Failed(error_view(best));
            let mut j: usize = 0;
            while j < paths.len()
                invariant
                    j <= paths.len(),
                    i < roots.len(),
                    ids == root_ids(self@.nodes),
                    roots@.map_values(|n: NodeId| n@) == ids,
                    ids[i as int] == root@,
                    owner_of(self@.nodes, key_id@) == Some(end@),
                    views == paths_between(self@.edges, root@, end@),
                    path_views(paths@) == views,
                    start == self@.search_roots(
                        key_id@,
                        request@,
                        *bundle,
                        ids,
                        end@,
                        i as int,
                    ),
                    self@.search_paths(
                        key_id@,
                        request@,
                        *bundle,
                        root@,
                        views,
                        j as int,
                        start,
                    ) == Search::Failed(error_view(best)),
                decreases paths.len() - j,
            {
                let path = &paths[j];
                proof {
                    assert(views[j as int] == path_view(path@));
                    assert(views.contains(views[j as int]));
                    crate::graph::walk::paths_are_the_simple_walks(
                        self@.edges,
                        root@,
                        end@,
                        views[j as int],
                    );
                    lemma_walk_positions(self@.edges, root@, views[j as int]);
                    assert forall|k: int| 0 <= k < path@.len() implies #[trigger] path@[k]
                        < self@.edges.len() by {
                        assert(views[j as int][k] == path@[k]);
                    }
                }
                match self.check_path(key_id, request, bundle, root, path) {
                    Ok(effective_scope) => {
                        proof {
                            lemma_found_stays(
                                self@,
                                key_id@,
                                request@,
                                *bundle,
                                root@,
                                views,
                                j + 1,
                                views.len() as int,
                                start,
                            );
                            lemma_found_stays_over_roots(
                                self@,
                                key_id@,
                                request@,
                                *bundle,
                                ids,
                                end@,
                                i + 1,
                                ids.len() as int,
                            );
                        }
                        return Ok(
                            TrustPath {
                                root: root.clone(),
                                credentials: self.credentials_on(path),
                                end,
                                effective_scope,
                            },
                        );
                    },
                    Err(e) => {
                        best = note(best, e);
                    },
                }
                j += 1;
            }
            i += 1;
        }
        match best {
            Some(e) => Err(e),
            None => Err(SignatifError::NoTrustPath { key_id: key_id.to_string() }),
        }
    }
}

/// An optional error as a mathematical value.
pub open spec fn error_view(e: Option<SignatifError>) -> Option<ErrorView> {
    match e {
        Some(e) => Some(e@),
        None => None,
    }
}

fn rank_of(e: &SignatifError) -> (r: u8)
    ensures
        r == failure_rank(e@),
{
    match e {
        SignatifError::ScopeExcluded { .. } => 3,
        SignatifError::ScopeConditionFailed { .. } => 3,
        SignatifError::CredentialSignatureInvalid { .. } => 2,
        SignatifError::ScopeViolation(_) => 1,
        _ => 0,
    }
}

fn note(best: Option<SignatifError>, e: SignatifError) -> (r: Option<SignatifError>)
    ensures
        error_view(r) == more_telling(error_view(best), e@),
{
    match best {
        None => Some(e),
        Some(b) => if rank_of(&e) > rank_of(&b) {
            Some(e)
        } else {
            Some(b)
        },
    }
}

proof fn lemma_path_scope_error(g: GraphView, path: Seq<int>, k: int, n: int)
    requires
        0 <= k <= n,
        g.path_scope(path, k) is Err,
    ensures
        g.path_scope(path, n) == g.path_scope(path, k),
    decreases n - k,
{
    if k < n {
        lemma_path_scope_error(g, path, k, n - 1);
    }
}

proof fn lemma_found_stays(
    g: GraphView,
    key_id: Seq<char>,
    request: RequestView,
    bundle: AnchorBundle,
    root: Seq<char>,
    paths: Seq<Seq<int>>,
    k: int,
    n: int,
    start: Search,
)
    requires
        0 <= k <= n,
        g.search_paths(key_id, request, bundle, root, paths, k, start) is Found,
    ensures
        g.search_paths(key_id, request, bundle, root, paths, n, start) == g.search_paths(
            key_id,
            request,
            bundle,
            root,
            paths,
            k,
            start,
        ),
    decreases n - k,
{
    if k < n {
        lemma_found_stays(g, key_id, request, bundle, root, paths, k, n - 1, start);
    }
}

proof fn lemma_found_start(
    g: GraphView,
    key_id: Seq<char>,
    request: RequestView,
    bundle: AnchorBundle,
    root: Seq<char>,
    paths: Seq<Seq<int>>,
    n: int,
    start: Search,
)
    requires
        start is Found,
    ensures
        g.search_paths(key_id, request, bundle, root, paths, n, start) == start,
    decreases n,
{
    if n > 0 {
        lemma_found_start(g, key_id, request, bundle, root, paths, n - 1, start);
    }
}

proof fn lemma_found_stays_over_roots(
    g: GraphView,
    key_id: Seq<char>,
    request: RequestView,
    bundle: AnchorBundle,
    roots: Seq<Seq<char>>,
    end: Seq<char>,
    k: int,
    n: int,
)
    requires
        0 <= k <= n,
        g.search_roots(key_id, request, bundle, roots, end, k) is Found,
    ensures
        g.search_roots(key_id, request, bundle, roots, end, n) == g.search_roots(
            key_id,
            request,
            bundle,
            roots,
            end,
            k,
        ),
    decreases n - k,
{
    if k < n {
        lemma_found_stays_over_roots(g, key_id, request, bundle, roots, end, k, n - 1);
        let paths = paths_between(g.edges, roots[n - 1], end);
        lemma_found_start(
            g,
            key_id,
            request,
            bundle,
            roots[n - 1],
            paths,
            paths.len() as int,
            g.search_roots(key_id, request, bundle, roots, end, n - 1),
        );
    }
}

/// What it takes for a path to serve a request: it leads from a root of the
/// graph to a node without visiting a node twice, the bundle anchors the root,
/// every credential on it verifies, the scopes narrow to the effective scope,
/// and the effective scope admits the request with all its conditions.
pub open spec fn serves(
    g: GraphView,
    request: RequestView,
    bundle: AnchorBundle,
    root: Seq<char>,
    end: Seq<char>,
    path: Seq<int>,
    scope: ScopeView,
) -> bool {
    &&& root_ids(g.nodes).contains(root)
    &&& is_simple(g.edges, root, path)
    &&& walk_end(g.edges, root, path) == end
    &&& bundle.anchors(root, request.at) is Ok
    &&& forall|k: int|
        0 <= k < path.len() ==> g.credential_check(g.edges[#[trigger] path[k]]) is Ok
    &&& g.path_scope(path, path.len() as int) == Ok::<ScopeView, ErrorView>(scope)
    &&& scope.matches(request)
    &&& first_failing(scope.conditions, request) is None
}

proof fn lemma_path_scope_credentials(g: GraphView, path: Seq<int>, n: int)
    requires
        0 <= n <= path.len(),
        g.path_scope(path, n) is Ok,
    ensures
        forall|k: int| 0 <= k < n ==> g.credential_check(g.edges[#[trigger] path[k]]) is Ok,
    decreases n,
{
    if n > 0 {
        lemma_path_scope_credentials(g, path, n - 1);
    }
}

pub(crate) proof fn lemma_check_serves(
    g: GraphView,
    key_id: Seq<char>,
    request: RequestView,
    bundle: AnchorBundle,
    root: Seq<char>,
    end: Seq<char>,
    path: Seq<int>,
)
    requires
        root_ids(g.nodes).contains(root),
        is_simple(g.edges, root, path),
        walk_end(g.edges, root, path) == end,
    ensures
        g.path_check(key_id, request, bundle, root, path) matches Ok(scope) ==> serves(
            g,
            request,
            bundle,
            root,
            end,
            path,
            scope,
        ),
{
    if let Ok(scope) = g.path_check(key_id, request, bundle, root, path) {
        lemma_path_scope_credentials(g, path, path.len() as int);
    }
}

proof fn lemma_search_paths_sound(
    g: GraphView,
    key_id: Seq<char>,
    request: RequestView,
    bundle: AnchorBundle,
    root: Seq<char>,
    end: Seq<char>,
    n: int,
    start: Search,
)
    requires
        root_ids(g.nodes).contains(root),
        0 <= n <= paths_between(g.edges, root, end).len(),
        start matches Search::Found { root: r, path, scope } ==> serves(
            g,
            request,
            bundle,
            r,
            end,
            path,
            scope,
        ),
    ensures
        g.search_paths(
            key_id,
            request,
            bundle,
            root,
            paths_between(g.edges, root, end),
            n,
            start,
        ) matches Search::Found { root: r, path, scope } ==> serves(
            g,
            request,
            bundle,
            r,
            end,
            path,
            scope,
        ),
    decreases n,
{
    if n > 0 {
        lemma_search_paths_sound(g, key_id, request, bundle, root, end, n - 1, start);
        let paths = paths_between(g.edges, root, end);
        let p = paths[n - 1];
        assert(paths.contains(p));
        crate::graph::walk::paths_are_the_simple_walks(g.edges, root, end, p);
        lemma_check_serves(g, key_id, request, bundle, root, end, p);
    }
}

proof fn lemma_search_roots_sound(
    g: GraphView,
    key_id: Seq<char>,
    request: RequestView,
    bundle: AnchorBundle,
    end: Seq<char>,
    n: int,
)
    requires
        0 <= n <= root_ids(g.nodes).len(),
    ensures
        g.search_roots(
            key_id,
            request,
            bundle,
            root_ids(g.nodes),
            end,
            n,
        ) matches Search::Found { root: r, path, scope } ==> serves(
            g,
            request,
            bundle,
            r,
            end,
            path,
            scope,
        ),
    decreases n,
{
    if n > 0 {
        lemma_search_roots_sound(g, key_id, request, bundle, end, n - 1);
        let roots = root_ids(g.nodes);
        assert(roots.contains(roots[n - 1]));
        let paths = paths_between(g.edges, roots[n - 1], end);
        lemma_search_paths_sound(
            g,
            key_id,
            request,
            bundle,
            roots[n - 1],
            end,
            paths.len() as int,
            g.search_roots(key_id, request, bundle, roots, end, n - 1),
        );
    }
}

/// A key resolves only to a path that serves the request and ends at the key's
/// owner.
pub proof fn resolution_is_sound(
    g: GraphView,
    key_id: Seq<char>,
    request: RequestView,
    bundle: AnchorBundle,
)
    ensures
        g.resolution(key_id, request, bundle) matches Search::Found { root, path, scope } ==> (
        owner_of(g.nodes, key_id) matches Some(end) && serves(
            g,
            request,
            bundle,
            root,
            end,
            path,
            scope,
        )),
{
    if let Some(end) = owner_of(g.nodes, key_id) {
        lemma_search_roots_sound(
            g,
            key_id,
            request,
            bundle,
            end,
            root_ids(g.nodes).len() as int,
        );
    }
}

/// Where some path serves the request, the key resolves.
pub proof fn resolution_is_complete(
    g: GraphView,
    key_id: Seq<char>,
    request: RequestView,
    bundle: AnchorBundle,
    root: Seq<char>,
    end: Seq<char>,
    path: Seq<int>,
    scope: ScopeView,
)
    requires
        owner_of(g.nodes, key_id) == Some(end),
        serves(g, request, bundle, root, end, path, scope),
    ensures
        g.resolution(key_id, request, bundle) is Found,
{
    let roots = root_ids(g.nodes);
    let i = roots.index_of(root);
    let paths = paths_between(g.edges, root, end);
    crate::graph::walk::paths_are_the_simple_walks(g.edges, root, end, path);
    let j = paths.index_of(path);
    let start = g.search_roots(key_id, request, bundle, roots, end, i);
    assert(g.path_check(key_id, request, bundle, root, path) == Ok::<ScopeView, ErrorView>(scope));
    assert(g.search_paths(key_id, request, bundle, root, paths, j + 1, start) is Found);
    lemma_found_stays(
        g,
        key_id,
        request,
        bundle,
        root,
        paths,
        j + 1,
        paths.len() as int,
        start,
    );
    assert(g.search_roots(key_id, request, bundle, roots, end, i + 1) is Found);
    lemma_found_stays_over_roots(
        g,
        key_id,
        request,
        bundle,
        roots,
        end,
        i + 1,
        roots.len() as int,
    );
}

/// Along a path, the effective scope admits no act that the scope of any
/// credential on it excludes, and it carries every condition of each.
pub proof fn no_hop_widens(
    g: GraphView,
    path: Seq<int>,
    n: int,
    k: int,
    request: RequestView,
    scope: ScopeView,
)
    requires
        0 <= k < n <= path.len(),
        g.path_scope(path, n) == Ok::<ScopeView, ErrorView>(scope),
    ensures
        scope.matches(request) ==> g.edges[path[k]].scope.matches(request),
        forall|c: crate::scope::ConditionView| #[trigger]
            g.edges[path[k]].scope.conditions.contains(c) ==> scope.conditions.contains(c),
    decreases n,
{
    let before = g.path_scope(path, n - 1)->Ok_0;
    let child = g.edges[path[n - 1]].scope;
    assert(before.narrow_to(child) == Ok::<ScopeView, ErrorView>(scope));
    crate::scope::lemma_narrow_to(before, child, scope, request);
    if k < n - 1 {
        no_hop_widens(g, path, n - 1, k, request, before);
    }
}

} // verus!
