//! Walks along the delegations of a graph, and which of them are paths between
//! two nodes.

use vstd::prelude::*;

use crate::graph::CredentialView;

verus! {

/// Where a walk from a node along delegations ends.
pub open spec fn walk_end(edges: Seq<CredentialView>, from: Seq<char>, walk: Seq<int>) -> Seq<
    char,
> {
    if walk.len() == 0 {
        from
    } else {
        edges[walk.last()].child
    }
}

/// Whether a list of positions is a walk from a node: each delegation on it
/// starts where the one before it ends.
pub open spec fn is_walk(edges: Seq<CredentialView>, from: Seq<char>, walk: Seq<int>) -> bool
    decreases walk.len(),
{
    walk.len() == 0 || {
        &&& is_walk(edges, from, walk.drop_last())
        &&& 0 <= walk.last() < edges.len()
        &&& edges[walk.last()].parent == walk_end(edges, from, walk.drop_last())
    }
}

/// The nodes that a walk visits, from the first on.
pub open spec fn visited(edges: Seq<CredentialView>, from: Seq<char>, walk: Seq<int>) -> Seq<
    Seq<char>,
> {
    seq![from] + walk.map_values(|i: int| edges[i].child)
}

/// Whether a walk visits no node twice.
pub open spec fn is_simple(edges: Seq<CredentialView>, from: Seq<char>, walk: Seq<int>) -> bool {
    is_walk(edges, from, walk) && visited(edges, from, walk).no_duplicates()
}

/// Whether a walk leads from one node to another.
pub open spec fn reachable(edges: Seq<CredentialView>, from: Seq<char>, to: Seq<char>) -> bool {
    exists|walk: Seq<int>| #[trigger]
        is_walk(edges, from, walk) && walk_end(edges, from, walk) == to
}

/// Whether no walk along the delegations comes back to where it started.
pub open spec fn acyclic(edges: Seq<CredentialView>) -> bool {
    forall|i: int|
        0 <= i < edges.len() ==> !reachable(edges, (#[trigger] edges[i]).child, edges[i].parent)
}

/// The walks that continue a walk by one of the first `n` delegations to a node
/// not visited yet, in the order of the delegations.
pub open spec fn continuations(
    edges: Seq<CredentialView>,
    from: Seq<char>,
    walk: Seq<int>,
    n: int,
) -> Seq<Seq<int>>
    decreases n,
{
    if n <= 0 {
        Seq::empty()
    } else {
        let front = continuations(edges, from, walk, n - 1);
        let e = edges[n - 1];
        if e.parent == walk_end(edges, from, walk) && !visited(edges, from, walk).contains(
            e.child,
        ) {
            front.push(walk.push(n - 1))
        } else {
            front
        }
    }
}

/// The walks one longer than those of a list; a walk that has arrived is not
/// continued.
pub open spec fn next_level(
    edges: Seq<CredentialView>,
    from: Seq<char>,
    to: Seq<char>,
    level: Seq<Seq<int>>,
) -> Seq<Seq<int>>
    decreases level.len(),
{
    if level.len() == 0 {
        Seq::empty()
    } else {
        let front = next_level(edges, from, to, level.drop_last());
        if walk_end(edges, from, level.last()) == to {
            front
        } else {
            front + continuations(edges, from, level.last(), edges.len() as int)
        }
    }
}

/// The walks of a list that have arrived.
pub open spec fn arrived(
    edges: Seq<CredentialView>,
    from: Seq<char>,
    to: Seq<char>,
    level: Seq<Seq<int>>,
) -> Seq<Seq<int>>
    decreases level.len(),
{
    if level.len() == 0 {
        Seq::empty()
    } else {
        let front = arrived(edges, from, to, level.drop_last());
        if walk_end(edges, from, level.last()) == to {
            front.push(level.last())
        } else {
            front
        }
    }
}

/// The walks of a length that may still become a path.
pub open spec fn level_of(
    edges: Seq<CredentialView>,
    from: Seq<char>,
    to: Seq<char>,
    len: nat,
) -> Seq<Seq<int>>
    decreases len,
{
    if len == 0 {
        seq![Seq::<int>::empty()]
    } else {
        next_level(edges, from, to, level_of(edges, from, to, (len - 1) as nat))
    }
}

/// The paths between two nodes with fewer than `n` delegations, shorter ones
/// first, and of the same length in the order of the delegations.
pub open spec fn paths_below(
    edges: Seq<CredentialView>,
    from: Seq<char>,
    to: Seq<char>,
    n: nat,
) -> Seq<Seq<int>>
    decreases n,
{
    if n == 0 {
        Seq::empty()
    } else {
        paths_below(edges, from, to, (n - 1) as nat) + arrived(
            edges,
            from,
            to,
            level_of(edges, from, to, (n - 1) as nat),
        )
    }
}

/// The paths between two nodes: the walks from one to the other that visit no
/// node twice, shorter ones first, and of the same length in the order of the
/// delegations.
pub open spec fn paths_between(
    edges: Seq<CredentialView>,
    from: Seq<char>,
    to: Seq<char>,
) -> Seq<Seq<int>> {
    paths_below(edges, from, to, edges.len() + 1)
}

/// The lexicographic order of lists of positions of the same length.
pub open spec fn walk_lt(a: Seq<int>, b: Seq<int>) -> bool
    decreases a.len(),
{
    a.len() > 0 && b.len() > 0 && (walk_lt(a.drop_last(), b.drop_last()) || (a.drop_last()
        == b.drop_last() && a.last() < b.last()))
}

/// The order of paths: by length, then by the positions of the delegations.
pub open spec fn path_lt(a: Seq<int>, b: Seq<int>) -> bool {
    a.len() < b.len() || (a.len() == b.len() && walk_lt(a, b))
}

/// Whether a list of paths is in strictly ascending order.
pub open spec fn paths_ascending(s: Seq<Seq<int>>) -> bool {
    forall|i: int, j: int| 0 <= i < j < s.len() ==> path_lt(#[trigger] s[i], #[trigger] s[j])
}

proof fn lemma_visited_push(edges: Seq<CredentialView>, from: Seq<char>, walk: Seq<int>, i: int)
    ensures
        visited(edges, from, walk.push(i)) == visited(edges, from, walk).push(edges[i].child),
{
    assert(visited(edges, from, walk.push(i)) =~= visited(edges, from, walk).push(edges[i].child));
}

proof fn lemma_walk_end_visited(edges: Seq<CredentialView>, from: Seq<char>, walk: Seq<int>)
    ensures
        visited(edges, from, walk).last() == walk_end(edges, from, walk),
        visited(edges, from, walk).len() == walk.len() + 1,
{
}

/// The start of a walk that visits no node twice does not either.
proof fn lemma_simple_prefix(edges: Seq<CredentialView>, from: Seq<char>, walk: Seq<int>)
    requires
        is_simple(edges, from, walk),
        walk.len() > 0,
    ensures
        is_simple(edges, from, walk.drop_last()),
        !visited(edges, from, walk.drop_last()).contains(edges[walk.last()].child),
{
    let front = walk.drop_last();
    assert(walk =~= front.push(walk.last()));
    lemma_visited_push(edges, from, front, walk.last());
    let v = visited(edges, from, walk);
    let f = visited(edges, from, front);
    assert(v == f.push(edges[walk.last()].child));
    assert forall|i: int, j: int| 0 <= i < f.len() && 0 <= j < f.len() && i != j implies f[i]
        != f[j] by {
        assert(v[i] == f[i] && v[j] == f[j]);
    }
    if f.contains(edges[walk.last()].child) {
        let k = f.index_of(edges[walk.last()].child);
        assert(v[k] == v[v.len() - 1]);
    }
}

proof fn lemma_simple_push(edges: Seq<CredentialView>, from: Seq<char>, walk: Seq<int>, i: int)
    requires
        is_simple(edges, from, walk),
        0 <= i < edges.len(),
        edges[i].parent == walk_end(edges, from, walk),
        !visited(edges, from, walk).contains(edges[i].child),
    ensures
        is_simple(edges, from, walk.push(i)),
{
    let w = walk.push(i);
    assert(w.drop_last() =~= walk);
    lemma_visited_push(edges, from, walk, i);
    let f = visited(edges, from, walk);
    let v = visited(edges, from, w);
    assert forall|a: int, b: int| 0 <= a < v.len() && 0 <= b < v.len() && a != b implies v[a]
        != v[b] by {
        if a == v.len() - 1 {
            assert(f.contains(v[b])) by {
                assert(f[b] == v[b]);
            }
        } else if b == v.len() - 1 {
            assert(f.contains(v[a])) by {
                assert(f[a] == v[a]);
            }
        } else {
            assert(v[a] == f[a] && v[b] == f[b]);
        }
    }
}

/// What the continuations of a walk are.
proof fn lemma_continuations(
    edges: Seq<CredentialView>,
    from: Seq<char>,
    walk: Seq<int>,
    n: int,
    p: Seq<int>,
)
    requires
        0 <= n <= edges.len(),
    ensures
        continuations(edges, from, walk, n).contains(p) == (p.len() == walk.len() + 1
            && p.drop_last() == walk && 0 <= p.last() < n && edges[p.last()].parent == walk_end(
            edges,
            from,
            walk,
        ) && !visited(edges, from, walk).contains(edges[p.last()].child)),
    decreases n,
{
    if n > 0 {
        lemma_continuations(edges, from, walk, n - 1, p);
        let front = continuations(edges, from, walk, n - 1);
        let all = continuations(edges, from, walk, n);
        let next = walk.push(n - 1);
        assert(next.drop_last() =~= walk);
        if p.len() == walk.len() + 1 && p.drop_last() == walk && p.last() == n - 1 {
            assert(p =~= next);
        }
        crate::sets::lemma_push_to_set(front, next);
        assert(front.push(next).to_set().contains(p) == front.push(next).contains(p));
        assert(front.to_set().contains(p) == front.contains(p));
    }
}

proof fn lemma_concat_contains<A>(a: Seq<A>, b: Seq<A>, x: A)
    ensures
        (a + b).contains(x) == (a.contains(x) || b.contains(x)),
{
    if a.contains(x) {
        let k = a.index_of(x);
        assert((a + b)[k] == x);
    }
    if b.contains(x) {
        let k = b.index_of(x);
        assert((a + b)[a.len() + k] == x);
    }
    if (a + b).contains(x) {
        let k = (a + b).index_of(x);
        if k < a.len() {
            assert(a[k] == x);
        } else {
            assert(b[k - a.len()] == x);
        }
    }
}

proof fn lemma_last_contains<A>(s: Seq<A>, x: A)
    requires
        s.len() > 0,
    ensures
        s.contains(x) == (s.drop_last().contains(x) || s.last() == x),
{
    assert(s =~= s.drop_last() + seq![s.last()]);
    lemma_concat_contains(s.drop_last(), seq![s.last()], x);
    if s.last() == x {
        assert(seq![s.last()][0] == x);
        assert(seq![s.last()].contains(x));
    }
}

/// What the walks of the next level are.
proof fn lemma_next_level(
    edges: Seq<CredentialView>,
    from: Seq<char>,
    to: Seq<char>,
    level: Seq<Seq<int>>,
    p: Seq<int>,
)
    ensures
        next_level(edges, from, to, level).contains(p) == (p.len() > 0 && level.contains(
            p.drop_last(),
        ) && walk_end(edges, from, p.drop_last()) != to && 0 <= p.last() < edges.len()
            && edges[p.last()].parent == walk_end(edges, from, p.drop_last()) && !visited(
            edges,
            from,
            p.drop_last(),
        ).contains(edges[p.last()].child)),
    decreases level.len(),
{
    if level.len() > 0 {
        lemma_next_level(edges, from, to, level.drop_last(), p);
        lemma_continuations(edges, from, level.last(), edges.len() as int, p);
        lemma_concat_contains(
            next_level(edges, from, to, level.drop_last()),
            continuations(edges, from, level.last(), edges.len() as int),
            p,
        );
        lemma_last_contains(level, p.drop_last());
    }
}

proof fn lemma_arrived(
    edges: Seq<CredentialView>,
    from: Seq<char>,
    to: Seq<char>,
    level: Seq<Seq<int>>,
    p: Seq<int>,
)
    ensures
        arrived(edges, from, to, level).contains(p) == (level.contains(p) && walk_end(
            edges,
            from,
            p,
        ) == to),
    decreases level.len(),
{
    if level.len() > 0 {
        lemma_arrived(edges, from, to, level.drop_last(), p);
        lemma_last_contains(level, p);
        let front = arrived(edges, from, to, level.drop_last());
        crate::sets::lemma_push_to_set(front, level.last());
        assert(front.push(level.last()).to_set().contains(p) == front.push(level.last()).contains(
            p,
        ));
        assert(front.to_set().contains(p) == front.contains(p));
    }
}

/// A level holds the walks of its length that visit no node twice and have not
/// visited the target before their end.
proof fn lemma_level(
    edges: Seq<CredentialView>,
    from: Seq<char>,
    to: Seq<char>,
    len: nat,
    p: Seq<int>,
)
    ensures
        level_of(edges, from, to, len).contains(p) == (p.len() == len && is_simple(edges, from, p)
            && (p.len() > 0 ==> !visited(edges, from, p.drop_last()).contains(to))),
    decreases len,
{
    if len == 0 {
        assert(seq![Seq::<int>::empty()][0] == Seq::<int>::empty());
        if p.len() == 0 {
            assert(p =~= Seq::<int>::empty());
            assert(visited(edges, from, p) =~= seq![from]);
        }
    } else {
        let level = level_of(edges, from, to, (len - 1) as nat);
        lemma_next_level(edges, from, to, level, p);
        if p.len() > 0 {
            let q = p.drop_last();
            assert(p =~= q.push(p.last()));
            lemma_level(edges, from, to, (len - 1) as nat, q);
            lemma_walk_end_visited(edges, from, q);
            let v = visited(edges, from, q);
            if q.len() > 0 {
                assert(q =~= q.drop_last().push(q.last()));
                lemma_visited_push(edges, from, q.drop_last(), q.last());
                lemma_last_contains(v, to);
                assert(v.drop_last() =~= visited(edges, from, q.drop_last()));
            } else {
                assert(v =~= seq![from]);
            }
            assert(v.contains(v.last())) by {
                assert(v[v.len() - 1] == v.last());
            }
            if level_of(edges, from, to, len).contains(p) {
                lemma_simple_push(edges, from, q, p.last());
                if v.contains(to) {
                    if q.len() == 0 {
                        assert(v[0] == from);
                    }
                }
            }
            if p.len() == len && is_simple(edges, from, p) && !v.contains(to) {
                lemma_simple_prefix(edges, from, p);
            }
        }
    }
}

/// A walk that visits no node twice uses no delegation twice, so it has no more
/// delegations than there are.
proof fn lemma_simple_length(edges: Seq<CredentialView>, from: Seq<char>, walk: Seq<int>)
    requires
        is_simple(edges, from, walk),
    ensures
        walk.len() <= edges.len(),
{
    lemma_walk_positions(edges, from, walk);
    let v = visited(edges, from, walk);
    assert forall|i: int, j: int| 0 <= i < walk.len() && 0 <= j < walk.len() && i != j implies walk[i]
        != walk[j] by {
        assert(v[i + 1] == edges[walk[i]].child);
        assert(v[j + 1] == edges[walk[j]].child);
    }
    walk.unique_seq_to_set();
    let range = vstd::set_lib::set_int_range(0, edges.len() as int);
    vstd::set_lib::lemma_int_range(0, edges.len() as int);
    assert(walk.to_set().subset_of(range));
    vstd::set_lib::lemma_len_subset(walk.to_set(), range);
}

/// The positions on a walk are positions of delegations.
pub proof fn lemma_walk_positions(edges: Seq<CredentialView>, from: Seq<char>, walk: Seq<int>)
    requires
        is_walk(edges, from, walk),
    ensures
        forall|i: int| 0 <= i < walk.len() ==> 0 <= #[trigger] walk[i] < edges.len(),
    decreases walk.len(),
{
    if walk.len() > 0 {
        lemma_walk_positions(edges, from, walk.drop_last());
        assert forall|i: int| 0 <= i < walk.len() implies 0 <= #[trigger] walk[i] < edges.len() by {
            if i < walk.len() - 1 {
                assert(walk.drop_last()[i] == walk[i]);
            }
        }
    }
}

/// In a walk without repetition to a node, the node is only the end.
proof fn lemma_simple_target(
    edges: Seq<CredentialView>,
    from: Seq<char>,
    to: Seq<char>,
    p: Seq<int>,
)
    requires
        is_simple(edges, from, p),
        walk_end(edges, from, p) == to,
        p.len() > 0,
    ensures
        !visited(edges, from, p.drop_last()).contains(to),
{
    lemma_simple_prefix(edges, from, p);
}

proof fn lemma_paths_below(
    edges: Seq<CredentialView>,
    from: Seq<char>,
    to: Seq<char>,
    n: nat,
    p: Seq<int>,
)
    ensures
        paths_below(edges, from, to, n).contains(p) == (p.len() < n && is_simple(edges, from, p)
            && walk_end(edges, from, p) == to),
    decreases n,
{
    if n > 0 {
        let m = (n - 1) as nat;
        lemma_paths_below(edges, from, to, m, p);
        let level = level_of(edges, from, to, m);
        lemma_level(edges, from, to, m, p);
        lemma_arrived(edges, from, to, level, p);
        lemma_concat_contains(
            paths_below(edges, from, to, m),
            arrived(edges, from, to, level),
            p,
        );
        if p.len() == m && p.len() > 0 && is_simple(edges, from, p) && walk_end(edges, from, p)
            == to {
            lemma_simple_target(edges, from, to, p);
        }
    }
}

/// The paths between two nodes are exactly the walks from one to the other that
/// visit no node twice.
pub proof fn paths_are_the_simple_walks(
    edges: Seq<CredentialView>,
    from: Seq<char>,
    to: Seq<char>,
    p: Seq<int>,
)
    ensures
        paths_between(edges, from, to).contains(p) == (is_simple(edges, from, p) && walk_end(
            edges,
            from,
            p,
        ) == to),
{
    lemma_paths_below(edges, from, to, edges.len() + 1, p);
    if is_simple(edges, from, p) {
        lemma_simple_length(edges, from, p);
    }
}

proof fn lemma_continuations_ascending(
    edges: Seq<CredentialView>,
    from: Seq<char>,
    walk: Seq<int>,
    n: int,
)
    requires
        0 <= n <= edges.len(),
    ensures
        paths_ascending(continuations(edges, from, walk, n)),
    decreases n,
{
    if n > 0 {
        lemma_continuations_ascending(edges, from, walk, n - 1);
        let front = continuations(edges, from, walk, n - 1);
        let all = continuations(edges, from, walk, n);
        let next = walk.push(n - 1);
        assert(next.drop_last() =~= walk);
        assert forall|i: int, j: int| 0 <= i < j < all.len() implies path_lt(
            #[trigger] all[i],
            #[trigger] all[j],
        ) by {
            if j < front.len() {
                assert(all[i] == front[i] && all[j] == front[j]);
            } else {
                assert(all[i] == front[i]);
                assert(front.contains(front[i]));
                lemma_continuations(edges, from, walk, n - 1, front[i]);
            }
        }
    }
}

proof fn lemma_next_level_ascending(
    edges: Seq<CredentialView>,
    from: Seq<char>,
    to: Seq<char>,
    level: Seq<Seq<int>>,
    len: nat,
)
    requires
        paths_ascending(level),
        forall|i: int| 0 <= i < level.len() ==> (#[trigger] level[i]).len() == len,
    ensures
        paths_ascending(next_level(edges, from, to, level)),
        forall|i: int|
            0 <= i < next_level(edges, from, to, level).len() ==> (#[trigger] next_level(
                edges,
                from,
                to,
                level,
            )[i]).len() == len + 1,
    decreases level.len(),
{
    if level.len() > 0 {
        let lower = level.drop_last();
        assert forall|i: int, j: int| 0 <= i < j < lower.len() implies path_lt(
            #[trigger] lower[i],
            #[trigger] lower[j],
        ) by {
            assert(lower[i] == level[i] && lower[j] == level[j]);
        }
        assert forall|i: int| 0 <= i < lower.len() implies (#[trigger] lower[i]).len() == len by {
            assert(lower[i] == level[i]);
        }
        lemma_next_level_ascending(edges, from, to, lower, len);
        let front = next_level(edges, from, to, lower);
        let last = level.last();
        let more = continuations(edges, from, last, edges.len() as int);
        lemma_continuations_ascending(edges, from, last, edges.len() as int);
        if walk_end(edges, from, last) != to {
            let all = front + more;
            assert forall|i: int| 0 <= i < all.len() implies (#[trigger] all[i]).len() == len
                + 1 by {
                if i >= front.len() {
                    let p = more[i - front.len()];
                    assert(more.contains(p));
                    lemma_continuations(edges, from, last, edges.len() as int, p);
                }
            }
            assert forall|i: int, j: int| 0 <= i < j < all.len() implies path_lt(
                #[trigger] all[i],
                #[trigger] all[j],
            ) by {
                if j < front.len() {
                    assert(all[i] == front[i] && all[j] == front[j]);
                } else if i >= front.len() {
                    assert(all[i] == more[i - front.len()] && all[j] == more[j - front.len()]);
                } else {
                    let p = front[i];
                    let q = more[j - front.len()];
                    assert(front.contains(p));
                    assert(more.contains(q));
                    lemma_next_level(edges, from, to, lower, p);
                    lemma_continuations(edges, from, last, edges.len() as int, q);
                    let k = lower.index_of(p.drop_last());
                    assert(path_lt(level[k], level[level.len() - 1]));
                    assert(walk_lt(p.drop_last(), q.drop_last()));
                }
            }
        }
    }
}

proof fn lemma_level_ascending(
    edges: Seq<CredentialView>,
    from: Seq<char>,
    to: Seq<char>,
    len: nat,
)
    ensures
        paths_ascending(level_of(edges, from, to, len)),
        forall|i: int|
            0 <= i < level_of(edges, from, to, len).len() ==> (#[trigger] level_of(
                edges,
                from,
                to,
                len,
            )[i]).len() == len,
    decreases len,
{
    if len > 0 {
        lemma_level_ascending(edges, from, to, (len - 1) as nat);
        lemma_next_level_ascending(
            edges,
            from,
            to,
            level_of(edges, from, to, (len - 1) as nat),
            (len - 1) as nat,
        );
    }
}

proof fn lemma_arrived_ascending(
    edges: Seq<CredentialView>,
    from: Seq<char>,
    to: Seq<char>,
    level: Seq<Seq<int>>,
)
    requires
        paths_ascending(level),
    ensures
        paths_ascending(arrived(edges, from, to, level)),
    decreases level.len(),
{
    if level.len() > 0 {
        let lower = level.drop_last();
        assert forall|i: int, j: int| 0 <= i < j < lower.len() implies path_lt(
            #[trigger] lower[i],
            #[trigger] lower[j],
        ) by {
            assert(lower[i] == level[i] && lower[j] == level[j]);
        }
        lemma_arrived_ascending(edges, from, to, lower);
        let front = arrived(edges, from, to, lower);
        let all = arrived(edges, from, to, level);
        assert forall|i: int, j: int| 0 <= i < j < all.len() implies path_lt(
            #[trigger] all[i],
            #[trigger] all[j],
        ) by {
            if j < front.len() {
                assert(all[i] == front[i] && all[j] == front[j]);
            } else {
                let p = front[i];
                assert(all[i] == p);
                assert(front.contains(p));
                lemma_arrived(edges, from, to, lower, p);
                let k = lower.index_of(p);
                assert(path_lt(level[k], level[level.len() - 1]));
            }
        }
    }
}

proof fn lemma_paths_below_ascending(
    edges: Seq<CredentialView>,
    from: Seq<char>,
    to: Seq<char>,
    n: nat,
)
    ensures
        paths_ascending(paths_below(edges, from, to, n)),
    decreases n,
{
    if n > 0 {
        let m = (n - 1) as nat;
        lemma_paths_below_ascending(edges, from, to, m);
        lemma_level_ascending(edges, from, to, m);
        let level = level_of(edges, from, to, m);
        lemma_arrived_ascending(edges, from, to, level);
        let front = paths_below(edges, from, to, m);
        let more = arrived(edges, from, to, level);
        let all = front + more;
        assert forall|i: int, j: int| 0 <= i < j < all.len() implies path_lt(
            #[trigger] all[i],
            #[trigger] all[j],
        ) by {
            if j < front.len() {
                assert(all[i] == front[i] && all[j] == front[j]);
            } else if i >= front.len() {
                assert(all[i] == more[i - front.len()] && all[j] == more[j - front.len()]);
            } else {
                let p = front[i];
                let q = more[j - front.len()];
                assert(front.contains(p));
                assert(more.contains(q));
                lemma_paths_below(edges, from, to, m, p);
                lemma_arrived(edges, from, to, level, q);
                let k = level.index_of(q);
                assert(level[k].len() == m);
            }
        }
    }
}

/// The paths between two nodes come by length and then by the positions of
/// their delegations, none twice.
pub proof fn paths_come_in_order(edges: Seq<CredentialView>, from: Seq<char>, to: Seq<char>)
    ensures
        paths_ascending(paths_between(edges, from, to)),
{
    lemma_paths_below_ascending(edges, from, to, edges.len() + 1);
}

/// One delegation is a walk from its parent to its child.
pub proof fn lemma_single_step(edges: Seq<CredentialView>, i: int)
    requires
        0 <= i < edges.len(),
    ensures
        is_walk(edges, edges[i].parent, seq![i]),
        walk_end(edges, edges[i].parent, seq![i]) == edges[i].child,
        reachable(edges, edges[i].parent, edges[i].child),
{
    reveal_with_fuel(is_walk, 2);
    assert(seq![i].drop_last() =~= Seq::<int>::empty());
    assert(is_walk(edges, edges[i].parent, seq![i]));
}

/// A walk goes on from where another ends.
pub proof fn lemma_walk_concat(
    edges: Seq<CredentialView>,
    from: Seq<char>,
    a: Seq<int>,
    b: Seq<int>,
)
    requires
        is_walk(edges, from, a),
        is_walk(edges, walk_end(edges, from, a), b),
    ensures
        is_walk(edges, from, a + b),
        walk_end(edges, from, a + b) == walk_end(edges, walk_end(edges, from, a), b),
    decreases b.len(),
{
    if b.len() == 0 {
        assert(a + b =~= a);
    } else {
        lemma_walk_concat(edges, from, a, b.drop_last());
        assert((a + b).drop_last() =~= a + b.drop_last());
    }
}

/// A walk that does not use the delegation added last is a walk without it.
proof fn lemma_walk_before_push(
    edges: Seq<CredentialView>,
    e: CredentialView,
    from: Seq<char>,
    walk: Seq<int>,
)
    requires
        is_walk(edges.push(e), from, walk),
        forall|i: int| 0 <= i < walk.len() ==> #[trigger] walk[i] != edges.len(),
    ensures
        is_walk(edges, from, walk),
        walk_end(edges, from, walk) == walk_end(edges.push(e), from, walk),
    decreases walk.len(),
{
    if walk.len() > 0 {
        let front = walk.drop_last();
        assert forall|i: int| 0 <= i < front.len() implies #[trigger] front[i] != edges.len() by {
            assert(front[i] == walk[i]);
        }
        lemma_walk_before_push(edges, e, from, front);
        assert(walk[walk.len() - 1] == walk.last());
    }
}

/// A walk is a walk in a graph with one more delegation.
pub proof fn lemma_walk_after_push(
    edges: Seq<CredentialView>,
    e: CredentialView,
    from: Seq<char>,
    walk: Seq<int>,
)
    requires
        is_walk(edges, from, walk),
    ensures
        is_walk(edges.push(e), from, walk),
        walk_end(edges.push(e), from, walk) == walk_end(edges, from, walk),
    decreases walk.len(),
{
    if walk.len() > 0 {
        lemma_walk_after_push(edges, e, from, walk.drop_last());
    }
}

/// A walk in a graph with one more delegation shows that its end was reachable
/// before, or from the new delegation's child; and then that the new
/// delegation's parent was reachable from the start.
proof fn lemma_walk_split(
    edges: Seq<CredentialView>,
    e: CredentialView,
    from: Seq<char>,
    walk: Seq<int>,
)
    requires
        is_walk(edges.push(e), from, walk),
    ensures
        reachable(edges, from, walk_end(edges.push(e), from, walk)) || (reachable(
            edges,
            from,
            e.parent,
        ) && reachable(edges, e.child, walk_end(edges.push(e), from, walk))),
    decreases walk.len(),
{
    let all = edges.push(e);
    if walk.len() == 0 {
        assert(is_walk(edges, from, walk) && walk_end(edges, from, walk) == from);
    } else {
        let front = walk.drop_last();
        lemma_walk_split(edges, e, from, front);
        let mid = walk_end(all, from, front);
        let end = walk_end(all, from, walk);
        if walk.last() == edges.len() {
            // The last step is the new delegation.
            let none = Seq::<int>::empty();
            assert(is_walk(edges, e.child, none) && walk_end(edges, e.child, none) == e.child);
            assert(reachable(edges, e.child, end));
            assert(mid == e.parent);
        } else {
            let step = seq![walk.last()];
            lemma_single_step(edges, walk.last());
            assert(walk_end(edges, mid, step) == end);
            if reachable(edges, from, mid) {
                let w = choose|w: Seq<int>| #[trigger]
                    is_walk(edges, from, w) && walk_end(edges, from, w) == mid;
                lemma_walk_concat(edges, from, w, step);
                assert(reachable(edges, from, end));
            } else {
                let w = choose|w: Seq<int>| #[trigger]
                    is_walk(edges, e.child, w) && walk_end(edges, e.child, w) == mid;
                lemma_walk_concat(edges, e.child, w, step);
                assert(reachable(edges, e.child, end));
            }
        }
    }
}

/// Reachability is transitive.
pub proof fn reachable_is_transitive(
    edges: Seq<CredentialView>,
    a: Seq<char>,
    b: Seq<char>,
    c: Seq<char>,
)
    requires
        reachable(edges, a, b),
        reachable(edges, b, c),
    ensures
        reachable(edges, a, c),
{
    let w = choose|w: Seq<int>| #[trigger] is_walk(edges, a, w) && walk_end(edges, a, w) == b;
    let v = choose|v: Seq<int>| #[trigger] is_walk(edges, b, v) && walk_end(edges, b, v) == c;
    lemma_walk_concat(edges, a, w, v);
}

/// Adding a delegation whose parent is not reachable from its child keeps an
/// acyclic graph acyclic.
pub proof fn adding_an_edge_stays_acyclic(edges: Seq<CredentialView>, e: CredentialView)
    requires
        acyclic(edges),
        !reachable(edges, e.child, e.parent),
    ensures
        acyclic(edges.push(e)),
{
    let all = edges.push(e);
    assert forall|i: int| 0 <= i < all.len() implies !reachable(
        all,
        (#[trigger] all[i]).child,
        all[i].parent,
    ) by {
        let c = all[i].child;
        let p = all[i].parent;
        if reachable(all, c, p) {
            let w = choose|w: Seq<int>| #[trigger] is_walk(all, c, w) && walk_end(all, c, w) == p;
            lemma_walk_split(edges, e, c, w);
            if i == edges.len() {
                if !reachable(edges, c, p) {
                    assert(reachable(edges, e.child, e.parent));
                }
            } else {
                assert(all[i] == edges[i]);
                assert(!reachable(edges, edges[i].child, edges[i].parent));
                assert(reachable(edges, c, e.parent) && reachable(edges, e.child, p));
                // From the new child to this parent, down this delegation, and
                // on to the new parent.
                lemma_single_step(edges, i);
                assert(reachable(edges, p, c));
                reachable_is_transitive(edges, e.child, p, c);
                reachable_is_transitive(edges, e.child, c, e.parent);
            }
        }
    }
}

} // verus!
