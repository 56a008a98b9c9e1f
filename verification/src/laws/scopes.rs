//! What scopes, their narrowing and their conditions promise.

use vstd::prelude::*;

use crate::laws::{inside, not_later};
use crate::scope::{
    condition_union, first_failing, last_value, layer_admits, layer_entails, layer_meet,
    layers_disjoint, ConditionView, LayerView, RequestView, ScopeView, WindowConstraint,
};
use crate::time::Timestamp;

verus! {

/// Whether a layer lets a value through: it lists none, or it lists that one.
pub open spec fn allows(layer: LayerView, value: Seq<char>) -> bool {
    match layer {
        None => true,
        Some(values) => exists|i: int| 0 <= i < values.len() && #[trigger] values[i] == value,
    }
}

/// Whether a window lets a moment through.
pub open spec fn open_at(window: WindowConstraint, t: Timestamp) -> bool {
    match window {
        WindowConstraint::Anytime => true,
        WindowConstraint::Within(span) => inside(span, t),
    }
}

/// Whether a scope lets an act through: on every layer and at its moment.
pub open spec fn permits(scope: ScopeView, act: RequestView) -> bool {
    &&& allows(scope.authority, act.authority)
    &&& allows(scope.profile_version, act.profile_version)
    &&& allows(scope.product_group, act.product_group)
    &&& open_at(scope.window, act.at)
}

proof fn lemma_allows(layer: LayerView, value: Seq<char>)
    ensures
        layer_admits(layer, value) == allows(layer, value),
{
    if let Some(values) = layer {
        if values.contains(value) {
            assert(values[values.index_of(value)] == value);
        }
    }
}

/// A scope admits an act exactly when each of its four layers lets it through;
/// otherwise the first layer that does not is named, in the order authority,
/// profile version, product group, window.
pub proof fn scopes_admit_on_every_layer(scope: ScopeView, act: RequestView)
    ensures
        scope.matches(act) == permits(scope, act),
        scope.rejecting_layer(act) is None == permits(scope, act),
        !allows(scope.authority, act.authority) ==> scope.rejecting_layer(act) == Some(
            "authority"@,
        ),
        allows(scope.authority, act.authority) && !allows(
            scope.profile_version,
            act.profile_version,
        ) ==> scope.rejecting_layer(act) == Some("profile-version"@),
        allows(scope.authority, act.authority) && allows(
            scope.profile_version,
            act.profile_version,
        ) && !allows(scope.product_group, act.product_group) ==> scope.rejecting_layer(act)
            == Some("product-group"@),
        allows(scope.authority, act.authority) && allows(
            scope.profile_version,
            act.profile_version,
        ) && allows(scope.product_group, act.product_group) && !open_at(scope.window, act.at)
            ==> scope.rejecting_layer(act) == Some("window"@),
{
    lemma_allows(scope.authority, act.authority);
    lemma_allows(scope.profile_version, act.profile_version);
    lemma_allows(scope.product_group, act.product_group);
}

/// Whether a value is the one recorded last under a key.
pub open spec fn recorded<V>(pairs: Seq<(Seq<char>, V)>, key: Seq<char>, value: V) -> bool {
    exists|i: int|
        0 <= i < pairs.len() && #[trigger] pairs[i] == (key, value) && forall|j: int|
            i < j < pairs.len() ==> (#[trigger] pairs[j]).0 != key
}

/// The value that counts for a key is the one recorded last under it.
pub proof fn the_last_record_counts<V>(pairs: Seq<(Seq<char>, V)>, key: Seq<char>, value: V)
    ensures
        last_value(pairs, key) == Some(value) <==> recorded(pairs, key, value),
    decreases pairs.len(),
{
    if pairs.len() > 0 {
        let short = pairs.drop_last();
        let n = pairs.len() - 1;
        the_last_record_counts(short, key, value);
        if pairs[n].0 == key {
            if recorded(pairs, key, value) {
                let i = choose|i: int|
                    0 <= i < pairs.len() && #[trigger] pairs[i] == (key, value) && forall|j: int|
                        i < j < pairs.len() ==> (#[trigger] pairs[j]).0 != key;
                if i < n {
                    assert(pairs[n].0 != key);
                }
            }
            if pairs[n].1 == value {
                assert(pairs[n] == (key, value));
            }
        } else {
            if recorded(short, key, value) {
                let i = choose|i: int|
                    0 <= i < short.len() && #[trigger] short[i] == (key, value) && forall|j: int|
                        i < j < short.len() ==> (#[trigger] short[j]).0 != key;
                assert(pairs[i] == (key, value));
                assert forall|j: int| i < j < pairs.len() implies (#[trigger] pairs[j]).0 != key by {
                    if j < n {
                        assert(short[j].0 != key);
                    }
                }
            }
            if recorded(pairs, key, value) {
                let i = choose|i: int|
                    0 <= i < pairs.len() && #[trigger] pairs[i] == (key, value) && forall|j: int|
                        i < j < pairs.len() ==> (#[trigger] pairs[j]).0 != key;
                assert(short[i] == (key, value));
                assert forall|j: int| i < j < short.len() implies (#[trigger] short[j]).0 != key by {
                    assert(pairs[j].0 != key);
                }
            }
        }
    }
}

/// No value counts for a key exactly when none is recorded under it.
pub proof fn records_are_found<V>(pairs: Seq<(Seq<char>, V)>, key: Seq<char>)
    ensures
        last_value(pairs, key) is None <==> forall|i: int|
            0 <= i < pairs.len() ==> (#[trigger] pairs[i]).0 != key,
    decreases pairs.len(),
{
    if pairs.len() > 0 {
        let short = pairs.drop_last();
        records_are_found(short, key);
        if last_value(pairs, key) is None {
            assert forall|i: int| 0 <= i < pairs.len() implies (#[trigger] pairs[i]).0 != key by {
                if i < short.len() {
                    assert(short[i].0 != key);
                }
            }
        }
        if forall|i: int| 0 <= i < pairs.len() ==> (#[trigger] pairs[i]).0 != key {
            assert forall|i: int| 0 <= i < short.len() implies (#[trigger] short[i]).0 != key by {
                assert(pairs[i].0 != key);
            }
        }
    }
}

/// Whether an act meets a condition: the value recorded last for the attribute
/// is an allowed one, or the outcome recorded last for the predicate is true.
pub open spec fn meets(act: RequestView, condition: ConditionView) -> bool {
    match condition {
        ConditionView::Attribute { key, allowed_values } => exists|v: Seq<char>| #[trigger]
            recorded(act.attributes, key, v) && allowed_values.contains(v),
        ConditionView::Predicate { expression_ref } => recorded(
            act.predicates,
            expression_ref,
            true,
        ),
    }
}

/// A condition holds for an act exactly when what was recorded last for it
/// meets it; what is not recorded never does.
pub proof fn conditions_hold_by_the_record(act: RequestView, condition: ConditionView)
    ensures
        condition.holds(act) == meets(act, condition),
{
    match condition {
        ConditionView::Attribute { key, allowed_values } => {
            if let Some(v) = last_value(act.attributes, key) {
                the_last_record_counts(act.attributes, key, v);
            }
            if meets(act, condition) {
                let v = choose|v: Seq<char>| #[trigger]
                    recorded(act.attributes, key, v) && allowed_values.contains(v);
                the_last_record_counts(act.attributes, key, v);
            }
        },
        ConditionView::Predicate { expression_ref } => {
            the_last_record_counts(act.predicates, expression_ref, true);
        },
    }
}

/// The first condition of a list that an act does not meet is found, and none
/// when it meets all.
pub proof fn the_first_unmet_condition_is_found(conditions: Seq<ConditionView>, act: RequestView)
    ensures
        first_failing(conditions, act) is None <==> forall|i: int|
            0 <= i < conditions.len() ==> meets(act, #[trigger] conditions[i]),
        first_failing(conditions, act) matches Some(k) ==> 0 <= k < conditions.len() && !meets(
            act,
            conditions[k],
        ) && forall|i: int| 0 <= i < k ==> meets(act, #[trigger] conditions[i]),
    decreases conditions.len(),
{
    if conditions.len() > 0 {
        let short = conditions.drop_last();
        let n = conditions.len() - 1;
        the_first_unmet_condition_is_found(short, act);
        conditions_hold_by_the_record(act, conditions[n]);
        match first_failing(short, act) {
            None => {
                assert forall|i: int| 0 <= i < n implies meets(act, #[trigger] conditions[i]) by {
                    assert(meets(act, short[i]));
                }
            },
            Some(k) => {
                assert(!meets(act, short[k]));
                assert(!meets(act, conditions[k]));
                assert forall|i: int| 0 <= i < k implies meets(act, #[trigger] conditions[i]) by {
                    assert(meets(act, short[i]));
                }
            },
        }
    }
}

/// A text that is longer than each of a list.
proof fn lemma_longer(values: Seq<Seq<char>>) -> (v: Seq<char>)
    ensures
        forall|i: int| 0 <= i < values.len() ==> (#[trigger] values[i]).len() < v.len(),
    decreases values.len(),
{
    if values.len() == 0 {
        Seq::empty()
    } else {
        let u = lemma_longer(values.drop_last());
        let last = values.last();
        let v = u + last.push('a');
        assert forall|i: int| 0 <= i < values.len() implies (#[trigger] values[i]).len()
            < v.len() by {
            if i < values.len() - 1 {
                assert(values.drop_last()[i] == values[i]);
            }
        }
        v
    }
}

/// One layer entails another exactly when it lets every value through that the
/// other does; a list of values never entails the wildcard.
pub proof fn entailment_is_inclusion(outer: LayerView, inner: LayerView)
    ensures
        layer_entails(outer, inner) <==> forall|v: Seq<char>| #[trigger]
            allows(inner, v) ==> allows(outer, v),
{
    if layer_entails(outer, inner) {
        assert forall|v: Seq<char>| #[trigger] allows(inner, v) implies allows(outer, v) by {
            lemma_allows(outer, v);
            lemma_allows(inner, v);
            if outer is Some {
                assert((inner->0).to_set().contains(v));
                assert((outer->0).to_set().contains(v));
            }
        }
    } else {
        match inner {
            None => {
                let v = lemma_longer(outer->0);
                assert(allows(inner, v));
                if allows(outer, v) {
                    let i = choose|i: int|
                        0 <= i < (outer->0).len() && #[trigger] (outer->0)[i] == v;
                    assert((outer->0)[i].len() < v.len());
                }
            },
            Some(values) => {
                if forall|v: Seq<char>| #[trigger] allows(inner, v) ==> allows(outer, v) {
                    assert forall|v: Seq<char>| values.to_set().contains(v) implies (
                    outer->0).to_set().contains(v) by {
                        lemma_allows(inner, v);
                        lemma_allows(outer, v);
                        assert(values.contains(v));
                        assert(allows(inner, v));
                    }
                }
            },
        }
    }
}

/// Whether a window lets some moment through.
pub open spec fn has_moments(window: WindowConstraint) -> bool {
    match window {
        WindowConstraint::Anytime => true,
        WindowConstraint::Within(span) => match span.to {
            None => true,
            Some(end) => not_later(span.from, end),
        },
    }
}

/// Whether one window starts no later and ends no earlier than another.
pub open spec fn spans(outer: WindowConstraint, inner: WindowConstraint) -> bool {
    match outer {
        WindowConstraint::Anytime => true,
        WindowConstraint::Within(o) => inner matches WindowConstraint::Within(i) && not_later(
            o.from,
            i.from,
        ) && (o.to matches Some(last) ==> (i.to matches Some(end) && not_later(end, last))),
    }
}

/// A window covers another exactly when it starts no later and ends no earlier.
/// A window that covers another lets every moment through that the other does.
/// One that lets both ends of another, with an end, through covers it.
pub proof fn covering_is_inclusion(outer: WindowConstraint, inner: WindowConstraint, t: Timestamp)
    ensures
        outer.covers(inner) == spans(outer, inner),
        outer.covers(inner) && open_at(inner, t) ==> open_at(outer, t),
        inner matches WindowConstraint::Within(span) ==> (span.to matches Some(end) ==> (open_at(
            outer,
            span.from,
        ) && open_at(outer, end) && not_later(span.from, end) ==> outer.covers(inner))),
{
}

/// The intersection of two windows lets through what both do; it fails exactly
/// when both are spans of which the later start is after the earlier end.
pub proof fn windows_intersect(a: WindowConstraint, b: WindowConstraint, t: Timestamp)
    ensures
        a.meet(b) matches Ok(w) ==> (open_at(w, t) <==> open_at(a, t) && open_at(b, t)),
        a.meet(b) is Err ==> !(open_at(a, t) && open_at(b, t)),
        has_moments(a) && has_moments(b) && (a.meet(b) matches Ok(w)) ==> has_moments(
            a.meet(b)->Ok_0,
        ),
{
}

/// Whether a layer lists no value at all, though it lists.
pub open spec fn admits_nothing(layer: LayerView) -> bool {
    layer matches Some(values) && values.len() == 0
}

/// Whether a scope may be delegated under another: on every layer, and at every
/// moment, it lets nothing through that the other does not, each of its lists
/// names a value, and where the other is bounded in time it has a moment.
pub open spec fn narrows(parent: ScopeView, child: ScopeView) -> bool {
    &&& forall|v: Seq<char>| #[trigger]
        allows(child.authority, v) ==> allows(parent.authority, v)
    &&& forall|v: Seq<char>| #[trigger]
        allows(child.profile_version, v) ==> allows(parent.profile_version, v)
    &&& forall|v: Seq<char>| #[trigger]
        allows(child.product_group, v) ==> allows(parent.product_group, v)
    &&& spans(parent.window, child.window)
    &&& !admits_nothing(child.authority)
    &&& !admits_nothing(child.profile_version)
    &&& !admits_nothing(child.product_group)
    &&& parent.window is Within ==> has_moments(child.window)
}

proof fn lemma_disjoint(outer: LayerView, inner: LayerView)
    requires
        layer_entails(outer, inner),
    ensures
        layers_disjoint(outer, inner) == admits_nothing(inner),
{
    entailment_is_inclusion(outer, inner);
    if !admits_nothing(inner) {
        let v = match inner {
            Some(values) => values[0],
            None => Seq::empty(),
        };
        assert(allows(inner, v));
        lemma_allows(inner, v);
        lemma_allows(outer, v);
        assert(layer_admits(outer, v) && layer_admits(inner, v));
    } else {
        assert forall|v: Seq<char>| #[trigger] layer_admits(outer, v) implies !layer_admits(
            inner,
            v,
        ) by {
            lemma_allows(inner, v);
        }
    }
}

proof fn lemma_union(a: Seq<ConditionView>, b: Seq<ConditionView>, c: ConditionView)
    ensures
        condition_union(a, b).contains(c) <==> a.contains(c) || b.contains(c),
    decreases b.len(),
{
    if b.len() > 0 {
        let front = condition_union(a, b.drop_last());
        let n = b.len() - 1;
        lemma_union(a, b.drop_last(), c);
        lemma_union(a, b.drop_last(), b[n]);
        if b.contains(c) {
            let i = b.index_of(c);
            if i < n {
                assert(b.drop_last()[i] == c);
            }
        }
        if b.drop_last().contains(c) {
            assert(b[b.drop_last().index_of(c)] == c);
        }
        if front.contains(c) && !front.contains(b[n]) {
            assert(front.push(b[n])[front.index_of(c)] == c);
        }
        if !front.contains(b[n]) {
            assert(front.push(b[n])[front.len() as int] == b[n]);
        }
        if condition_union(a, b).contains(c) && !front.contains(c) {
            let k = condition_union(a, b).index_of(c);
            if k < front.len() {
                assert(front[k] == c);
            }
            assert(b[n] == c);
        }
    }
}

/// Narrowing succeeds exactly when the child narrows the parent. The effective
/// scope lets through what the child does, which the parent does too, and it
/// carries the conditions of both and no others.
pub proof fn narrowing_is_inclusion(parent: ScopeView, child: ScopeView, act: RequestView)
    ensures
        parent.narrow_to(child) is Ok <==> narrows(parent, child),
        parent.narrow_error(child) is None <==> narrows(parent, child),
        parent.narrow_to(child) matches Ok(s) ==> (permits(s, act) <==> permits(child, act)) && (
        permits(s, act) ==> permits(parent, act)),
        parent.narrow_to(child) matches Ok(s) ==> forall|c: ConditionView| #[trigger]
            s.conditions.contains(c) <==> parent.conditions.contains(c) || child.conditions.contains(
                c,
            ),
{
    entailment_is_inclusion(parent.authority, child.authority);
    entailment_is_inclusion(parent.profile_version, child.profile_version);
    entailment_is_inclusion(parent.product_group, child.product_group);
    covering_is_inclusion(parent.window, child.window, act.at);
    if parent.admits(child) {
        lemma_disjoint(parent.authority, child.authority);
        lemma_disjoint(parent.profile_version, child.profile_version);
        lemma_disjoint(parent.product_group, child.product_group);
    }
    if let Ok(s) = parent.narrow_to(child) {
        assert forall|c: ConditionView| #[trigger] s.conditions.contains(c)
            <==> parent.conditions.contains(c) || child.conditions.contains(c) by {
            lemma_union(parent.conditions, child.conditions, c);
        }
        if permits(child, act) {
            assert(allows(child.authority, act.authority));
            assert(allows(child.profile_version, act.profile_version));
            assert(allows(child.product_group, act.product_group));
        }
    }
}

/// A scope is a contradiction exactly when one of its three lists is empty: no
/// act can ever be let through.
pub proof fn contradictions_admit_nothing(scope: ScopeView, act: RequestView)
    ensures
        scope.contradiction() <==> admits_nothing(scope.authority) || admits_nothing(
            scope.profile_version,
        ) || admits_nothing(scope.product_group),
        scope.contradiction() ==> !permits(scope, act),
{
}

/// The intersection of two layers lets through what both do.
pub proof fn intersections_allow_what_both_do(
    a: LayerView,
    b: LayerView,
    r: LayerView,
    v: Seq<char>,
)
    requires
        layer_meet(a, b, r),
    ensures
        allows(r, v) <==> allows(a, v) && allows(b, v),
{
    lemma_allows(a, v);
    lemma_allows(b, v);
    lemma_allows(r, v);
    if let (Some(x), Some(y)) = (a, b) {
        let z = r->0;
        assert(z.to_set().contains(v) == z.contains(v));
        assert(x.to_set().contains(v) == x.contains(v));
        assert(y.to_set().contains(v) == y.contains(v));
        assert(z.to_set().contains(v) == x.to_set().intersect(y.to_set()).contains(v));
    }
}

} // verus!
