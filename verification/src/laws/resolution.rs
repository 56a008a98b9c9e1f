//! Which path a key resolves to where several would do, and which failure is
//! told where none does.

use vstd::prelude::*;

use crate::graph::{owner_of, root_ids, AnchorBundle, GraphView};
use crate::graph::search::{failure_rank, more_telling, serves, Search};
use crate::graph::walk::{
    path_lt, paths_are_the_simple_walks, paths_between, paths_come_in_order, walk_lt,
};
use crate::laws::trust::{
    carries, connects, is_a_root, roots_are_the_nodes_of_kind_root, serving_paths_carry,
    simple_walks_connect,
};
use crate::scope::{RequestView, ScopeView};
use crate::ErrorView;

verus! {

/// Whether a path comes before another: it is shorter, or of the same length and
/// takes the earlier delegation where the two first differ.
pub open spec fn comes_before(a: Seq<int>, b: Seq<int>) -> bool {
    a.len() < b.len() || (a.len() == b.len() && exists|k: int|
        0 <= k < a.len() && #[trigger] a[k] < b[k] && forall|j: int|
            0 <= j < k ==> #[trigger] a[j] == b[j])
}

proof fn lemma_walk_lt(a: Seq<int>, b: Seq<int>)
    requires
        a.len() == b.len(),
        walk_lt(a, b),
    ensures
        exists|k: int|
            0 <= k < a.len() && #[trigger] a[k] < b[k] && forall|j: int|
                0 <= j < k ==> #[trigger] a[j] == b[j],
    decreases a.len(),
{
    let s = a.drop_last();
    let t = b.drop_last();
    let n = a.len() - 1;
    if walk_lt(s, t) {
        lemma_walk_lt(s, t);
        let k = choose|k: int|
            0 <= k < s.len() && #[trigger] s[k] < t[k] && forall|j: int|
                0 <= j < k ==> #[trigger] s[j] == t[j];
        assert(a[k] < b[k]);
        assert forall|j: int| 0 <= j < k implies #[trigger] a[j] == b[j] by {
            assert(s[j] == t[j]);
        }
    } else {
        assert(a[n] < b[n]);
        assert forall|j: int| 0 <= j < n implies #[trigger] a[j] == b[j] by {
            assert(s[j] == t[j]);
        }
    }
}

/// The paths between two nodes are all that connect them, each once, in order.
pub proof fn paths_between_come_in_order(
    g: GraphView,
    from: Seq<char>,
    to: Seq<char>,
    p: Seq<int>,
)
    ensures
        paths_between(g.edges, from, to).contains(p) <==> connects(g.edges, from, to, p),
        forall|i: int, j: int|
            0 <= i < j < paths_between(g.edges, from, to).len() ==> comes_before(
                #[trigger] paths_between(g.edges, from, to)[i],
                #[trigger] paths_between(g.edges, from, to)[j],
            ),
{
    paths_are_the_simple_walks(g.edges, from, to, p);
    simple_walks_connect(g.edges, from, to, p);
    paths_come_in_order(g.edges, from, to);
    let all = paths_between(g.edges, from, to);
    assert forall|i: int, j: int| 0 <= i < j < all.len() implies comes_before(
        #[trigger] all[i],
        #[trigger] all[j],
    ) by {
        assert(path_lt(all[i], all[j]));
        if all[i].len() == all[j].len() {
            lemma_walk_lt(all[i], all[j]);
        }
    }
}

proof fn lemma_check_carries(
    g: GraphView,
    key_id: Seq<char>,
    act: RequestView,
    bundle: AnchorBundle,
    root: Seq<char>,
    end: Seq<char>,
    path: Seq<int>,
)
    requires
        root_ids(g.nodes).contains(root),
        paths_between(g.edges, root, end).contains(path),
    ensures
        g.path_check(key_id, act, bundle, root, path) is Ok <==> carries(
            g,
            act,
            bundle,
            root,
            end,
            path,
        ),
{
    paths_are_the_simple_walks(g.edges, root, end, path);
    serving_paths_carry(g, act, bundle, root, end, path);
    if let Ok(s) = g.path_check(key_id, act, bundle, root, path) {
        crate::graph::search::lemma_check_serves(g, key_id, act, bundle, root, end, path);
        assert(serves(g, act, bundle, root, end, path, s));
    }
    if carries(g, act, bundle, root, end, path) {
        let s = choose|s: ScopeView| serves(g, act, bundle, root, end, path, s);
        assert(g.path_check(key_id, act, bundle, root, path) == Ok::<ScopeView, ErrorView>(s));
    }
}

/// What a search among the first paths of a list gives: the first that passes.
proof fn lemma_first_path(
    g: GraphView,
    key_id: Seq<char>,
    act: RequestView,
    bundle: AnchorBundle,
    root: Seq<char>,
    paths: Seq<Seq<int>>,
    n: int,
    start: Search,
)
    requires
        0 <= n <= paths.len(),
        start is Failed,
    ensures
        g.search_paths(key_id, act, bundle, root, paths, n, start) is Failed <==> forall|m: int|
            0 <= m < n ==> g.path_check(key_id, act, bundle, root, #[trigger] paths[m]) is Err,
        g.search_paths(key_id, act, bundle, root, paths, n, start) matches Search::Found {
            root: r,
            path,
            scope,
        } ==> r == root && exists|k: int|
            0 <= k < n && #[trigger] paths[k] == path && g.path_check(
                key_id,
                act,
                bundle,
                root,
                path,
            ) is Ok && forall|m: int|
                0 <= m < k ==> g.path_check(key_id, act, bundle, root, #[trigger] paths[m]) is Err,
    decreases n,
{
    if n > 0 {
        lemma_first_path(g, key_id, act, bundle, root, paths, n - 1, start);
        match g.search_paths(key_id, act, bundle, root, paths, n - 1, start) {
            Search::Found { root: r, path, scope } => {
                let k = choose|k: int|
                    0 <= k < n - 1 && #[trigger] paths[k] == path && g.path_check(
                        key_id,
                        act,
                        bundle,
                        root,
                        path,
                    ) is Ok && forall|m: int|
                        0 <= m < k ==> g.path_check(
                            key_id,
                            act,
                            bundle,
                            root,
                            #[trigger] paths[m],
                        ) is Err;
                assert(paths[k] == path);
            },
            Search::Failed(_) => {
                assert(paths[n - 1] == paths[n - 1]);
            },
        }
    }
}

/// Whether no path of a root to a node passes.
spec fn barren(
    g: GraphView,
    key_id: Seq<char>,
    act: RequestView,
    bundle: AnchorBundle,
    root: Seq<char>,
    end: Seq<char>,
) -> bool {
    forall|m: int|
        0 <= m < paths_between(g.edges, root, end).len() ==> g.path_check(
            key_id,
            act,
            bundle,
            root,
            #[trigger] paths_between(g.edges, root, end)[m],
        ) is Err
}

proof fn lemma_found_start(
    g: GraphView,
    key_id: Seq<char>,
    act: RequestView,
    bundle: AnchorBundle,
    root: Seq<char>,
    paths: Seq<Seq<int>>,
    n: int,
    start: Search,
)
    requires
        start is Found,
    ensures
        g.search_paths(key_id, act, bundle, root, paths, n, start) == start,
    decreases n,
{
    if n > 0 {
        lemma_found_start(g, key_id, act, bundle, root, paths, n - 1, start);
    }
}

proof fn lemma_first_root(
    g: GraphView,
    key_id: Seq<char>,
    act: RequestView,
    bundle: AnchorBundle,
    roots: Seq<Seq<char>>,
    end: Seq<char>,
    n: int,
)
    requires
        0 <= n <= roots.len(),
    ensures
        g.search_roots(key_id, act, bundle, roots, end, n) is Failed <==> forall|i: int|
            0 <= i < n ==> barren(g, key_id, act, bundle, #[trigger] roots[i], end),
        g.search_roots(key_id, act, bundle, roots, end, n) matches Search::Found {
            root,
            path,
            scope,
        } ==> exists|i: int, k: int|
            #![trigger roots[i], paths_between(g.edges, root, end)[k]]
            0 <= i < n && roots[i] == root && 0 <= k < paths_between(g.edges, root, end).len()
                && paths_between(g.edges, root, end)[k] == path && (forall|j: int|
                0 <= j < i ==> barren(g, key_id, act, bundle, #[trigger] roots[j], end)) && (forall|
                m: int,
            |
                0 <= m < k ==> g.path_check(
                    key_id,
                    act,
                    bundle,
                    root,
                    #[trigger] paths_between(g.edges, root, end)[m],
                ) is Err),
    decreases n,
{
    if n > 0 {
        lemma_first_root(g, key_id, act, bundle, roots, end, n - 1);
        let start = g.search_roots(key_id, act, bundle, roots, end, n - 1);
        let paths = paths_between(g.edges, roots[n - 1], end);
        match start {
            Search::Found { root, path, scope } => {
                lemma_found_start(
                    g,
                    key_id,
                    act,
                    bundle,
                    roots[n - 1],
                    paths,
                    paths.len() as int,
                    start,
                );
                let (i, k) = choose|i: int, k: int|
                    #![trigger roots[i], paths_between(g.edges, root, end)[k]]
                    0 <= i < n - 1 && roots[i] == root && 0 <= k < paths_between(
                        g.edges,
                        root,
                        end,
                    ).len() && paths_between(g.edges, root, end)[k] == path && (forall|j: int|
                        0 <= j < i ==> barren(g, key_id, act, bundle, #[trigger] roots[j], end))
                        && (forall|m: int|
                        0 <= m < k ==> g.path_check(
                            key_id,
                            act,
                            bundle,
                            root,
                            #[trigger] paths_between(g.edges, root, end)[m],
                        ) is Err);
                assert(roots[i] == root && paths_between(g.edges, root, end)[k] == path);
            },
            Search::Failed(_) => {
                lemma_first_path(
                    g,
                    key_id,
                    act,
                    bundle,
                    roots[n - 1],
                    paths,
                    paths.len() as int,
                    start,
                );
                if let Search::Found { root, path, scope } = g.search_paths(
                    key_id,
                    act,
                    bundle,
                    roots[n - 1],
                    paths,
                    paths.len() as int,
                    start,
                ) {
                    let k = choose|k: int|
                        0 <= k < paths.len() && #[trigger] paths[k] == path && g.path_check(
                            key_id,
                            act,
                            bundle,
                            root,
                            path,
                        ) is Ok && forall|m: int|
                            0 <= m < k ==> g.path_check(
                                key_id,
                                act,
                                bundle,
                                root,
                                #[trigger] paths[m],
                            ) is Err;
                    assert(roots[n - 1] == root && paths_between(g.edges, root, end)[k] == path);
                }
            },
        }
    }
}

/// A key resolves to the first root, in the order of the nodes, from which some
/// path carries the authority, and to the first of the paths that do, the
/// shortest ones first.
pub proof fn the_first_path_is_found(
    g: GraphView,
    key_id: Seq<char>,
    act: RequestView,
    bundle: AnchorBundle,
)
    ensures
        g.resolution(key_id, act, bundle) matches Search::Found { root, path, scope } ==> {
            let end = owner_of(g.nodes, key_id)->0;
            &&& forall|along: Seq<int>| #[trigger]
                carries(g, act, bundle, root, end, along) ==> along == path || comes_before(
                    path,
                    along,
                )
            &&& exists|i: int|
                0 <= i < root_ids(g.nodes).len() && #[trigger] root_ids(g.nodes)[i] == root
                    && forall|j: int, along: Seq<int>|
                    0 <= j < i ==> !#[trigger] carries(
                        g,
                        act,
                        bundle,
                        root_ids(g.nodes)[j],
                        end,
                        along,
                    )
        },
{
    if let Search::Found { root, path, scope } = g.resolution(key_id, act, bundle) {
        let end = owner_of(g.nodes, key_id)->0;
        let roots = root_ids(g.nodes);
        let paths = paths_between(g.edges, root, end);
        lemma_first_root(g, key_id, act, bundle, roots, end, roots.len() as int);
        let (i, k) = choose|i: int, k: int|
            #![trigger roots[i], paths_between(g.edges, root, end)[k]]
            0 <= i < roots.len() && roots[i] == root && 0 <= k < paths_between(
                g.edges,
                root,
                end,
            ).len() && paths_between(g.edges, root, end)[k] == path && (forall|j: int|
                0 <= j < i ==> barren(g, key_id, act, bundle, #[trigger] roots[j], end)) && (forall|
                m: int,
            |
                0 <= m < k ==> g.path_check(
                    key_id,
                    act,
                    bundle,
                    root,
                    #[trigger] paths_between(g.edges, root, end)[m],
                ) is Err);
        assert(roots.contains(roots[i]));
        assert forall|along: Seq<int>| #[trigger]
            carries(g, act, bundle, root, end, along) implies along == path || comes_before(
            path,
            along,
        ) by {
            paths_between_come_in_order(g, root, end, along);
            let m = paths.index_of(along);
            assert(paths[m] == along);
            lemma_check_carries(g, key_id, act, bundle, root, end, along);
            assert(m >= k);
            if m > k {
                assert(comes_before(paths[k], paths[m]));
            }
        }
        assert forall|j: int, along: Seq<int>| 0 <= j < i implies !#[trigger] carries(
            g,
            act,
            bundle,
            roots[j],
            end,
            along,
        ) by {
            assert(roots.contains(roots[j]));
            assert(barren(g, key_id, act, bundle, roots[j], end));
            if carries(g, act, bundle, roots[j], end, along) {
                paths_between_come_in_order(g, roots[j], end, along);
                let all = paths_between(g.edges, roots[j], end);
                let m = all.index_of(along);
                assert(all[m] == along);
                lemma_check_carries(g, key_id, act, bundle, roots[j], end, along);
            }
        }
    }
}

/// Whether a failure lies in the act: the scope excludes it or a condition is
/// not met.
pub open spec fn lies_in_the_act(e: ErrorView) -> bool {
    e is ScopeExcluded || e is ScopeConditionFailed
}

/// Whether one failure is at least as telling as another: what lies in the act
/// tells most, then a credential that does not verify, then a scope that widens,
/// then anything else.
pub open spec fn tells_no_less(a: ErrorView, b: ErrorView) -> bool {
    &&& lies_in_the_act(b) ==> lies_in_the_act(a)
    &&& b is CredentialSignatureInvalid ==> lies_in_the_act(a) || a is CredentialSignatureInvalid
    &&& b is ScopeViolation ==> lies_in_the_act(a) || a is CredentialSignatureInvalid
        || a is ScopeViolation
}

proof fn lemma_rank(a: ErrorView, b: ErrorView)
    ensures
        failure_rank(b) <= failure_rank(a) <==> tells_no_less(a, b),
{
}

proof fn lemma_best_path(
    g: GraphView,
    key_id: Seq<char>,
    act: RequestView,
    bundle: AnchorBundle,
    root: Seq<char>,
    paths: Seq<Seq<int>>,
    n: int,
    start: Search,
)
    requires
        0 <= n <= paths.len(),
        start is Failed,
        g.search_paths(key_id, act, bundle, root, paths, n, start) is Failed,
    ensures
        ({
            let old_best = start->Failed_0;
            let best = g.search_paths(key_id, act, bundle, root, paths, n, start)->Failed_0;
            &&& old_best matches Some(o) ==> (best matches Some(e) && tells_no_less(e, o))
            &&& best is None ==> n == 0 && old_best is None
            &&& best matches Some(e) ==> old_best == Some(e) || exists|m: int|
                0 <= m < n && g.path_check(key_id, act, bundle, root, #[trigger] paths[m]) == Err::<
                    ScopeView,
                    ErrorView,
                >(e)
            &&& forall|m: int|
                0 <= m < n ==> (best matches Some(e) && tells_no_less(
                    e,
                    g.path_check(key_id, act, bundle, root, #[trigger] paths[m])->Err_0,
                ))
        }),
    decreases n,
{
    if n > 0 {
        lemma_best_path(g, key_id, act, bundle, root, paths, n - 1, start);
        let before = g.search_paths(key_id, act, bundle, root, paths, n - 1, start)->Failed_0;
        let e = g.path_check(key_id, act, bundle, root, paths[n - 1])->Err_0;
        let after = more_telling(before, e)->0;
        if before is Some {
            lemma_rank(before->0, e);
            lemma_rank(e, before->0);
        }
        assert forall|m: int| 0 <= m < n implies tells_no_less(
            after,
            g.path_check(key_id, act, bundle, root, #[trigger] paths[m])->Err_0,
        ) by {}
        assert(paths[n - 1] == paths[n - 1]);
    }
}

/// Whether a failure is that of a path from one of the first roots of a list.
spec fn attempted(
    g: GraphView,
    key_id: Seq<char>,
    act: RequestView,
    bundle: AnchorBundle,
    roots: Seq<Seq<char>>,
    end: Seq<char>,
    n: int,
    e: ErrorView,
) -> bool {
    exists|i: int, path: Seq<int>|
        #![trigger roots[i], paths_between(g.edges, roots[i], end).contains(path)]
        0 <= i < n && paths_between(g.edges, roots[i], end).contains(path) && g.path_check(
            key_id,
            act,
            bundle,
            roots[i],
            path,
        ) == Err::<ScopeView, ErrorView>(e)
}

proof fn lemma_best_root(
    g: GraphView,
    key_id: Seq<char>,
    act: RequestView,
    bundle: AnchorBundle,
    roots: Seq<Seq<char>>,
    end: Seq<char>,
    n: int,
)
    requires
        0 <= n <= roots.len(),
        g.search_roots(key_id, act, bundle, roots, end, n) is Failed,
    ensures
        ({
            let best = g.search_roots(key_id, act, bundle, roots, end, n)->Failed_0;
            &&& best matches Some(e) ==> attempted(g, key_id, act, bundle, roots, end, n, e)
            &&& forall|e: ErrorView| #[trigger]
                attempted(g, key_id, act, bundle, roots, end, n, e) ==> (best matches Some(b)
                    && tells_no_less(b, e))
        }),
    decreases n,
{
    if n > 0 {
        let start = g.search_roots(key_id, act, bundle, roots, end, n - 1);
        let root = roots[n - 1];
        let paths = paths_between(g.edges, root, end);
        if start is Found {
            lemma_found_start(g, key_id, act, bundle, root, paths, paths.len() as int, start);
        }
        lemma_best_root(g, key_id, act, bundle, roots, end, n - 1);
        lemma_best_path(g, key_id, act, bundle, root, paths, paths.len() as int, start);
        lemma_first_path(g, key_id, act, bundle, root, paths, paths.len() as int, start);
        let before = start->Failed_0;
        let best = g.search_roots(key_id, act, bundle, roots, end, n)->Failed_0;
        if let Some(e) = best {
            if before == Some(e) {
                let (i, path) = choose|i: int, path: Seq<int>|
                    #![trigger roots[i], paths_between(g.edges, roots[i], end).contains(path)]
                    0 <= i < n - 1 && paths_between(g.edges, roots[i], end).contains(path)
                        && g.path_check(key_id, act, bundle, roots[i], path) == Err::<
                        ScopeView,
                        ErrorView,
                    >(e);
                assert(paths_between(g.edges, roots[i], end).contains(path));
                assert(attempted(g, key_id, act, bundle, roots, end, n, e));
            } else {
                let m = choose|m: int|
                    0 <= m < paths.len() && g.path_check(
                        key_id,
                        act,
                        bundle,
                        root,
                        #[trigger] paths[m],
                    ) == Err::<ScopeView, ErrorView>(e);
                assert(paths_between(g.edges, roots[n - 1], end).contains(paths[m]));
                assert(attempted(g, key_id, act, bundle, roots, end, n, e));
            }
        }
        assert forall|e: ErrorView| #[trigger]
            attempted(g, key_id, act, bundle, roots, end, n, e) implies (best matches Some(b)
            && tells_no_less(b, e)) by {
            let (i, path) = choose|i: int, path: Seq<int>|
                #![trigger roots[i], paths_between(g.edges, roots[i], end).contains(path)]
                0 <= i < n && paths_between(g.edges, roots[i], end).contains(path) && g.path_check(
                    key_id,
                    act,
                    bundle,
                    roots[i],
                    path,
                ) == Err::<ScopeView, ErrorView>(e);
            if i < n - 1 {
                assert(paths_between(g.edges, roots[i], end).contains(path));
                assert(attempted(g, key_id, act, bundle, roots, end, n - 1, e));
            } else {
                let m = paths.index_of(path);
                assert(paths[m] == path);
            }
        }
    }
}

/// Where a key resolves to no path, the failure that is told is that of some
/// path from a root to the owner, and none of these is more telling. Without an
/// owner or any such path, it is that there is no path.
pub proof fn the_most_telling_failure_is_told(
    g: GraphView,
    key_id: Seq<char>,
    act: RequestView,
    bundle: AnchorBundle,
    root: Seq<char>,
    path: Seq<int>,
)
    requires
        g.resolution(key_id, act, bundle) is Failed,
    ensures
        owner_of(g.nodes, key_id) matches Some(end) && is_a_root(g.nodes, root) && connects(
            g.edges,
            root,
            end,
            path,
        ) ==> (g.path_check(key_id, act, bundle, root, path) matches Err(e) && tells_no_less(
            g.resolution_error(key_id, act, bundle),
            e,
        )),
        owner_of(g.nodes, key_id) is None ==> g.resolution_error(key_id, act, bundle)
            == (ErrorView::NoTrustPath { key_id }),
        g.resolution_error(key_id, act, bundle) == (ErrorView::NoTrustPath { key_id }) || (
        owner_of(g.nodes, key_id) matches Some(end) && exists|r: Seq<char>, p: Seq<int>|
            is_a_root(g.nodes, r) && #[trigger] connects(g.edges, r, end, p) && g.path_check(
                key_id,
                act,
                bundle,
                r,
                p,
            ) == Err::<ScopeView, ErrorView>(g.resolution_error(key_id, act, bundle))),
{
    if let Some(end) = owner_of(g.nodes, key_id) {
        let roots = root_ids(g.nodes);
        lemma_best_root(g, key_id, act, bundle, roots, end, roots.len() as int);
        lemma_first_root(g, key_id, act, bundle, roots, end, roots.len() as int);
        let best = g.resolution(key_id, act, bundle)->Failed_0;
        if is_a_root(g.nodes, root) && connects(g.edges, root, end, path) {
            roots_are_the_nodes_of_kind_root(g.nodes, root);
            paths_between_come_in_order(g, root, end, path);
            let i = roots.index_of(root);
            let all = paths_between(g.edges, roots[i], end);
            assert(barren(g, key_id, act, bundle, roots[i], end));
            let m = all.index_of(path);
            assert(all[m] == path);
            let e = g.path_check(key_id, act, bundle, root, path)->Err_0;
            assert(paths_between(g.edges, roots[i], end).contains(path));
            assert(attempted(g, key_id, act, bundle, roots, end, roots.len() as int, e));
        }
        if let Some(e) = best {
            let (i, p) = choose|i: int, path: Seq<int>|
                #![trigger roots[i], paths_between(g.edges, roots[i], end).contains(path)]
                0 <= i < roots.len() && paths_between(g.edges, roots[i], end).contains(path)
                    && g.path_check(key_id, act, bundle, roots[i], path) == Err::<
                    ScopeView,
                    ErrorView,
                >(e);
            assert(roots.contains(roots[i]));
            roots_are_the_nodes_of_kind_root(g.nodes, roots[i]);
            paths_between_come_in_order(g, roots[i], end, p);
            assert(connects(g.edges, roots[i], end, p));
        }
    }
}

} // verus!
