//! The delegation scope: four layers that constrain what a delegatee may do,
//! conditions on the single act, and the rule that a chain of delegations may
//! only narrow.
//!
//! The layers are the authority whose acts are covered, the versioned profile
//! (`<profile-id>@<version>`), the product group, and the time window. Along a
//! path from a root to a key each scope must be entailed by the one before it;
//! the effective scope of the path is the intersection of the layers and the
//! union of the conditions. An act, a [`ScopeRequest`], is admitted only if
//! the effective scope admits it on every layer and every condition holds.

use vstd::bytes::spec_u32_to_le_bytes;
use vstd::prelude::*;

use crate::canon::{bool_bytes, i64_bytes, text_field, CanonicalWriter};
use crate::sets::{ascending, lemma_ascending_determined, str_texts, StringSet};
use crate::text::{cat2, cat3, cat4, cat5, quote, quoted, same_text};
use crate::time::{Interval, Timestamp};
use crate::{ErrorView, SignatifError};

verus! {

/// The name of the first layer.
pub const LAYER_AUTHORITY: &'static str = "authority";

/// The name of the second layer.
pub const LAYER_PROFILE_VERSION: &'static str = "profile-version";

/// The name of the third layer.
pub const LAYER_PRODUCT_GROUP: &'static str = "product-group";

/// The name of the fourth layer.
pub const LAYER_WINDOW: &'static str = "window";

/// The names of the layers, in the order in which they are enforced.
pub const SCOPE_LAYERS: [&'static str; 4] = [
    "authority",
    "profile-version",
    "product-group",
    "window",
];

/// A constraint on one symbolic layer.
#[derive(Debug, PartialEq, Eq)]
pub enum LayerConstraint {
    /// Any value is admitted.
    Any,
    /// These values are admitted; with no values, nothing is.
    Only(StringSet),
}

/// A symbolic layer: `None` admits anything, `Some` the values listed.
pub type LayerView = Option<Seq<Seq<char>>>;

/// Whether a layer admits a value.
pub open spec fn layer_admits(layer: LayerView, value: Seq<char>) -> bool {
    layer matches Some(values) ==> values.contains(value)
}

/// Whether everything that `inner` admits is admitted by `outer`, by their
/// form: only the wildcard entails the wildcard.
pub open spec fn layer_entails(outer: LayerView, inner: LayerView) -> bool {
    match (outer, inner) {
        (None, _) => true,
        (Some(_), None) => false,
        (Some(o), Some(i)) => i.to_set().subset_of(o.to_set()),
    }
}

/// Whether a layer admits nothing.
pub open spec fn layer_contradiction(layer: LayerView) -> bool {
    layer matches Some(values) && values.len() == 0
}

/// Whether no value is admitted by both of two layers.
pub open spec fn layers_disjoint(a: LayerView, b: LayerView) -> bool {
    forall|v: Seq<char>| #[trigger] layer_admits(a, v) ==> !layer_admits(b, v)
}

/// Whether `r` is the intersection of two layers.
pub open spec fn layer_meet(a: LayerView, b: LayerView, r: LayerView) -> bool {
    match (a, b) {
        (None, _) => r == b,
        (_, None) => r == a,
        (Some(x), Some(y)) => r matches Some(z) && z.to_set() == x.to_set().intersect(y.to_set())
            && ascending(z),
    }
}

/// The intersection of two layers admits what both admit, and nothing exactly
/// when they are disjoint.
proof fn lemma_meet(a: LayerView, b: LayerView, r: LayerView)
    requires
        layer_meet(a, b, r),
    ensures
        layer_contradiction(r) == layers_disjoint(a, b),
        layer_entails(a, r),
        layer_entails(b, r),
        forall|v: Seq<char>| #[trigger]
            layer_admits(r, v) == (layer_admits(a, v) && layer_admits(b, v)),
{
    assert forall|v: Seq<char>| #[trigger] layer_admits(r, v) == (layer_admits(a, v)
        && layer_admits(b, v)) by {
        if a is Some && b is Some {
            let z = r->0;
            assert(z.contains(v) == z.to_set().contains(v));
            assert((a->0).contains(v) == (a->0).to_set().contains(v));
            assert((b->0).contains(v) == (b->0).to_set().contains(v));
        }
    }
    if layer_contradiction(r) {
        assert forall|v: Seq<char>| #[trigger] layer_admits(a, v) implies !layer_admits(b, v) by {
            assert(!layer_admits(r, v));
        }
    } else {
        let v = match r {
            Some(z) => z[0],
            None => Seq::empty(),
        };
        assert(layer_admits(r, v));
        assert(layer_admits(a, v) && layer_admits(b, v));
    }
}

/// Which of two layers comes first makes no difference to their intersection.
pub proof fn intersections_commute(a: LayerView, b: LayerView, r: LayerView, s: LayerView)
    requires
        layer_meet(a, b, r),
        layer_meet(b, a, s),
    ensures
        r == s,
        layers_disjoint(a, b) == layers_disjoint(b, a),
{
    lemma_meet(a, b, r);
    lemma_meet(b, a, s);
    if a is Some && b is Some {
        assert((a->0).to_set().intersect((b->0).to_set()) =~= (b->0).to_set().intersect(
            (a->0).to_set(),
        ));
        lemma_ascending_determined(r->0, s->0);
    }
}

/// Strings in quotes, separated by commas.
pub open spec fn quoted_list(s: Seq<Seq<char>>) -> Seq<char>
    decreases s.len(),
{
    if s.len() == 0 {
        ""@
    } else if s.len() == 1 {
        quoted(s[0])
    } else {
        quoted_list(s.drop_last()) + ", "@ + quoted(s.last())
    }
}

/// A layer in words.
pub open spec fn layer_text(layer: LayerView) -> Seq<char> {
    match layer {
        None => "Any"@,
        Some(values) => "Only({"@ + quoted_list(values) + "})"@,
    }
}

/// The canonical bytes of the values of a layer.
pub open spec fn value_fields(s: Seq<Seq<char>>) -> Seq<u8>
    decreases s.len(),
{
    if s.len() == 0 {
        Seq::empty()
    } else {
        value_fields(s.drop_last()) + text_field(s.last())
    }
}

/// The canonical bytes of a layer.
pub open spec fn layer_bytes(layer: LayerView) -> Seq<u8> {
    match layer {
        None => seq![0u8],
        Some(values) => seq![1u8] + spec_u32_to_le_bytes(values.len() as u32) + value_fields(
            values,
        ),
    }
}

/// Renders strings in quotes, separated by commas.
pub fn quote_list(s: &StringSet) -> (r: String)
    ensures
        r@ == quoted_list(s@),
{
    let mut out = "".to_owned();
    let mut i: usize = 0;
    let n: usize = s.len();
    assert(s@.take(0) == Seq::<Seq<char>>::empty());
    while i < n
        invariant
            n == s@.len(),
            i <= n,
            out@ == quoted_list(s@.take(i as int)),
        decreases n - i,
    {
        proof {
            reveal_strlit("");
            assert(s@.take(i + 1).drop_last() == s@.take(i as int));
            assert(s@.take(i + 1).last() == s@[i as int]);
            assert(""@ + quoted(s@[i as int]) == quoted(s@[i as int]));
        }
        if i > 0 {
            out.push_str(", ");
        }
        let q = quote(s.get(i).as_str());
        out.push_str(q.as_str());
        i += 1;
    }
    assert(s@.take(i as int) == s@);
    out
}

impl View for LayerConstraint {
    type V = LayerView;

    open spec fn view(&self) -> LayerView {
        match self {
            LayerConstraint::Any => None,
            LayerConstraint::Only(set) => Some(set@),
        }
    }
}

impl Clone for LayerConstraint {
    fn clone(&self) -> (r: LayerConstraint)
        ensures
            r@ == self@,
    {
        match self {
            LayerConstraint::Any => LayerConstraint::Any,
            LayerConstraint::Only(set) => LayerConstraint::Only(set.clone()),
        }
    }
}

impl Default for LayerConstraint {
    fn default() -> (r: LayerConstraint)
        ensures
            r@ == LayerView::None,
    {
        LayerConstraint::Any
    }
}

impl LayerConstraint {
    /// Admits exactly the given values.
    pub fn only(values: &[&str]) -> (r: LayerConstraint)
        ensures
            r is Only,
            r@->0.to_set() == str_texts(values@).to_set(),
            ascending(r@->0),
    {
        LayerConstraint::Only(StringSet::of(values))
    }

    /// The values of a layer are in ascending order.
    pub fn reveal_order(&self)
        ensures
            self@ matches Some(v) ==> ascending(v),
    {
        match self {
            LayerConstraint::Any => {},
            LayerConstraint::Only(set) => {
                set.reveal_order();
            },
        }
    }

    /// Whether the layer admits a value.
    pub fn contains(&self, value: &str) -> (r: bool)
        ensures
            r == layer_admits(self@, value@),
    {
        match self {
            LayerConstraint::Any => true,
            LayerConstraint::Only(set) => set.contains(value),
        }
    }

    /// Whether the layer is the wildcard.
    pub fn is_any(&self) -> (r: bool)
        ensures
            r == (self@ is None),
    {
        match self {
            LayerConstraint::Any => true,
            LayerConstraint::Only(_) => false,
        }
    }

    /// Whether the layer admits nothing.
    pub fn is_contradiction(&self) -> (r: bool)
        ensures
            r == layer_contradiction(self@),
    {
        match self {
            LayerConstraint::Any => false,
            LayerConstraint::Only(set) => set.is_empty(),
        }
    }

    /// Whether this layer entails another.
    pub fn entails(&self, subset: &LayerConstraint) -> (r: bool)
        ensures
            r == layer_entails(self@, subset@),
    {
        match (self, subset) {
            (LayerConstraint::Any, _) => true,
            (LayerConstraint::Only(_), LayerConstraint::Any) => false,
            (LayerConstraint::Only(outer), LayerConstraint::Only(inner)) => inner.is_subset(outer),
        }
    }

    /// The intersection of two layers; an error when no value is admitted by
    /// both.
    pub fn intersect(&self, other: &LayerConstraint) -> (r: Result<LayerConstraint, SignatifError>)
        ensures
            r is Err == layers_disjoint(self@, other@),
            r matches Err(e) ==> e@ == ErrorView::ScopeViolation(
                "layer intersection is empty (disjoint constraints)"@,
            ),
            r matches Ok(l) ==> layer_meet(self@, other@, l@) && !layer_contradiction(l@)
                && layer_entails(self@, l@) && layer_entails(other@, l@) && forall|v: Seq<char>|
                #[trigger] layer_admits(l@, v) == (layer_admits(self@, v) && layer_admits(
                    other@,
                    v,
                )),
    {
        let out = match (self, other) {
            (LayerConstraint::Any, x) => x.clone(),
            (x, LayerConstraint::Any) => x.clone(),
            (LayerConstraint::Only(a), LayerConstraint::Only(b)) => LayerConstraint::Only(
                a.intersection(b),
            ),
        };
        proof {
            lemma_meet(self@, other@, out@);
        }
        if out.is_contradiction() {
            return Err(
                SignatifError::ScopeViolation(
                    "layer intersection is empty (disjoint constraints)".to_owned(),
                ),
            );
        }
        Ok(out)
    }

    /// The layer in words.
    pub fn to_text(&self) -> (r: String)
        ensures
            r@ == layer_text(self@),
    {
        match self {
            LayerConstraint::Any => "Any".to_owned(),
            LayerConstraint::Only(set) => {
                let list = quote_list(set);
                cat3("Only({", list.as_str(), "})")
            },
        }
    }

    /// What to say when this layer does not entail another.
    fn mismatch_detail(&self, other: &LayerConstraint, layer: &str) -> (r: Option<String>)
        ensures
            r is None == layer_entails(self@, other@),
            r matches Some(t) ==> t@ == mismatch_text(
                layer@,
                layer_text(self@),
                layer_text(other@),
            ),
    {
        if self.entails(other) {
            None
        } else {
            Some(widening(layer, self.to_text().as_str(), other.to_text().as_str()))
        }
    }

    fn write(&self, w: &mut CanonicalWriter)
        ensures
            final(w)@ == old(w)@ + layer_bytes(self@),
    {
        match self {
            LayerConstraint::Any => {
                w.write_tag(0);
                assert(w@ =~= old(w)@ + layer_bytes(self@));
            },
            LayerConstraint::Only(set) => {
                w.write_tag(1);
                let n: usize = set.len();
                w.write_u32(n as u32);
                let mut i: usize = 0;
                let ghost start = w@;
                assert(value_fields(set@.take(0)) =~= Seq::<u8>::empty());
                while i < n
                    invariant
                        n == set@.len(),
                        i <= n,
                        w@ =~= start + value_fields(set@.take(i as int)),
                    decreases n - i,
                {
                    proof {
                        assert(set@.take(i + 1).drop_last() == set@.take(i as int));
                    }
                    w.write_str(set.get(i).as_str());
                    i += 1;
                }
                assert(set@.take(i as int) == set@);
                assert(w@ =~= old(w)@ + layer_bytes(self@));
            },
        }
    }
}

/// Says that a layer widens.
pub open spec fn mismatch_text(layer: Seq<char>, outer: Seq<char>, inner: Seq<char>) -> Seq<char> {
    "layer `"@ + layer + "` widens or diverges: "@ + outer + " does not entail "@ + inner
}

fn widening(layer: &str, outer: &str, inner: &str) -> (r: String)
    ensures
        r@ == mismatch_text(layer@, outer@, inner@),
{
    crate::text::cat6("layer `", layer, "` widens or diverges: ", outer, " does not entail ", inner)
}

/// A constraint on the moment of an act.
#[derive(Debug, Clone, Copy, PartialEq, Eq, Structural)]
pub enum WindowConstraint {
    /// Any moment is admitted.
    Anytime,
    /// The moments of a closed interval are admitted.
    Within(Interval),
}

impl Default for WindowConstraint {
    fn default() -> (r: WindowConstraint)
        ensures
            r == WindowConstraint::Anytime,
    {
        WindowConstraint::Anytime
    }
}

impl WindowConstraint {
    /// Whether a moment is admitted.
    pub open spec fn has(self, t: Timestamp) -> bool {
        self matches WindowConstraint::Within(iv) ==> iv.has(t)
    }

    /// Whether every moment that `inner` admits is admitted, by their form.
    pub open spec fn covers(self, inner: WindowConstraint) -> bool {
        match (self, inner) {
            (WindowConstraint::Anytime, _) => true,
            (WindowConstraint::Within(_), WindowConstraint::Anytime) => false,
            (WindowConstraint::Within(o), WindowConstraint::Within(i)) => o.from.le(i.from)
                && match (o.to, i.to) {
                (None, _) => true,
                (Some(_), None) => false,
                (Some(x), Some(y)) => y.le(x),
            },
        }
    }

    /// The later of two starts and the earlier of two ends.
    pub open spec fn overlap(a: Interval, b: Interval) -> Interval {
        Interval {
            from: if a.from.lt(b.from) {
                b.from
            } else {
                a.from
            },
            to: match (a.to, b.to) {
                (None, t) => t,
                (t, None) => t,
                (Some(x), Some(y)) => Some(
                    if y.lt(x) {
                        y
                    } else {
                        x
                    },
                ),
            },
        }
    }

    /// The intersection of two windows, if it is not empty.
    pub open spec fn meet(self, other: WindowConstraint) -> Result<WindowConstraint, ErrorView> {
        match (self, other) {
            (WindowConstraint::Anytime, _) => Ok(other),
            (_, WindowConstraint::Anytime) => Ok(self),
            (WindowConstraint::Within(a), WindowConstraint::Within(b)) => {
                let o = WindowConstraint::overlap(a, b);
                if o.to matches Some(end) && end.lt(o.from) {
                    Err(
                        ErrorView::ScopeViolation(
                            "window intersection is empty (["@ + a.text() + "] ∩ ["@ + b.text()
                                + "])"@,
                        ),
                    )
                } else {
                    Ok(WindowConstraint::Within(o))
                }
            },
        }
    }

    /// The window in words.
    pub open spec fn text(self) -> Seq<char> {
        match self {
            WindowConstraint::Anytime => "Anytime"@,
            WindowConstraint::Within(iv) => "Within("@ + iv.text() + ")"@,
        }
    }

    /// The canonical bytes of the window.
    pub open spec fn bytes(self) -> Seq<u8> {
        match self {
            WindowConstraint::Anytime => seq![0u8],
            WindowConstraint::Within(iv) => seq![1u8] + i64_bytes(iv.from.secs)
                + spec_u32_to_le_bytes(iv.from.nanos) + bool_bytes(iv.to is Some) + match iv.to {
                None => Seq::empty(),
                Some(to) => i64_bytes(to.secs) + spec_u32_to_le_bytes(to.nanos),
            },
        }
    }

    /// Whether a moment is admitted.
    pub fn contains(&self, t: Timestamp) -> (r: bool)
        ensures
            r == self.has(t),
    {
        match self {
            WindowConstraint::Anytime => true,
            WindowConstraint::Within(iv) => iv.contains(t),
        }
    }

    /// Whether any moment is admitted by form.
    pub fn is_any(&self) -> (r: bool)
        ensures
            r == (*self == WindowConstraint::Anytime),
    {
        match self {
            WindowConstraint::Anytime => true,
            WindowConstraint::Within(_) => false,
        }
    }

    /// Whether this window entails another.
    pub fn entails(&self, subset: &WindowConstraint) -> (r: bool)
        ensures
            r == self.covers(*subset),
    {
        match (self, subset) {
            (WindowConstraint::Anytime, _) => true,
            (WindowConstraint::Within(_), WindowConstraint::Anytime) => false,
            (WindowConstraint::Within(outer), WindowConstraint::Within(inner)) => {
                outer.from.not_after(inner.from) && match (outer.to, inner.to) {
                    (None, _) => true,
                    (Some(_), None) => false,
                    (Some(o), Some(i)) => i.not_after(o),
                }
            },
        }
    }

    /// The intersection of two windows; an error when they are disjoint.
    pub fn intersect(&self, other: &WindowConstraint) -> (r: Result<
        WindowConstraint,
        SignatifError,
    >)
        ensures
            crate::outcome(r) == self.meet(*other),
    {
        match (self, other) {
            (WindowConstraint::Anytime, x) => Ok(*x),
            (x, WindowConstraint::Anytime) => Ok(*x),
            (WindowConstraint::Within(a), WindowConstraint::Within(b)) => {
                let from = if a.from.before(b.from) {
                    b.from
                } else {
                    a.from
                };
                let to = match (a.to, b.to) {
                    (None, t) => t,
                    (t, None) => t,
                    (Some(x), Some(y)) => Some(
                        if y.before(x) {
                            y
                        } else {
                            x
                        },
                    ),
                };
                if let Some(end) = to {
                    if end.before(from) {
                        let x = a.to_string();
                        let y = b.to_string();
                        return Err(
                            SignatifError::ScopeViolation(
                                cat5(
                                    "window intersection is empty ([",
                                    x.as_str(),
                                    "] ∩ [",
                                    y.as_str(),
                                    "])",
                                ),
                            ),
                        );
                    }
                }
                Ok(WindowConstraint::Within(Interval { from, to }))
            },
        }
    }

    /// The window in words.
    pub fn to_text(&self) -> (r: String)
        ensures
            r@ == self.text(),
    {
        match self {
            WindowConstraint::Anytime => "Anytime".to_owned(),
            WindowConstraint::Within(iv) => {
                let t = iv.to_string();
                cat3("Within(", t.as_str(), ")")
            },
        }
    }

    fn write(&self, w: &mut CanonicalWriter)
        ensures
            final(w)@ == old(w)@ + self.bytes(),
    {
        match self {
            WindowConstraint::Anytime => {
                w.write_tag(0);
            },
            WindowConstraint::Within(iv) => {
                w.write_tag(1);
                w.write_i64(iv.from.secs);
                w.write_u32(iv.from.nanos);
                w.write_bool(iv.to.is_some());
                if let Some(to) = iv.to {
                    w.write_i64(to.secs);
                    w.write_u32(to.nanos);
                }
            },
        }
        assert(w@ =~= old(w)@ + self.bytes());
    }
}

/// A condition that an act must satisfy beside the four layers.
#[derive(Debug, PartialEq, Eq)]
pub enum ScopeCondition {
    /// A recorded attribute of the act has one of the allowed values.
    Attribute {
        /// The attribute.
        key: String,
        /// The values allowed.
        allowed_values: StringSet,
    },
    /// A named predicate was evaluated for the act and held.
    Predicate {
        /// The reference of the predicate.
        expression_ref: String,
    },
}

/// A condition as a mathematical value.
#[verifier::ext_equal]
pub enum ConditionView {
    /// See [`ScopeCondition::Attribute`].
    Attribute { key: Seq<char>, allowed_values: Seq<Seq<char>> },
    /// See [`ScopeCondition::Predicate`].
    Predicate { expression_ref: Seq<char> },
}

impl ConditionView {
    /// The form of the condition.
    pub open spec fn label(self) -> Seq<char> {
        match self {
            ConditionView::Attribute { .. } => "attribute"@,
            ConditionView::Predicate { .. } => "predicate"@,
        }
    }

    /// The condition in words.
    pub open spec fn text(self) -> Seq<char> {
        match self {
            ConditionView::Attribute { key, allowed_values } => key + " in {"@ + quoted_list(
                allowed_values,
            ) + "}"@,
            ConditionView::Predicate { expression_ref } => expression_ref + " holds"@,
        }
    }

    /// Whether an act satisfies the condition. An attribute that is not
    /// recorded and a predicate that was not evaluated fail it.
    pub open spec fn holds(self, request: RequestView) -> bool {
        match self {
            ConditionView::Attribute { key, allowed_values } => last_value(request.attributes, key)
                matches Some(v) && allowed_values.contains(v),
            ConditionView::Predicate { expression_ref } => last_value(
                request.predicates,
                expression_ref,
            ) == Some(true),
        }
    }

    /// The canonical bytes of the condition.
    pub open spec fn bytes(self) -> Seq<u8> {
        match self {
            ConditionView::Attribute { key, allowed_values } => seq![0u8] + text_field(key)
                + layer_bytes(Some(allowed_values)),
            ConditionView::Predicate { expression_ref } => seq![1u8] + text_field(expression_ref),
        }
    }
}

/// The value recorded last under a key.
pub open spec fn last_value<V>(pairs: Seq<(Seq<char>, V)>, key: Seq<char>) -> Option<V>
    decreases pairs.len(),
{
    if pairs.len() == 0 {
        None
    } else if pairs.last().0 == key {
        Some(pairs.last().1)
    } else {
        last_value(pairs.drop_last(), key)
    }
}

impl View for ScopeCondition {
    type V = ConditionView;

    open spec fn view(&self) -> ConditionView {
        match self {
            ScopeCondition::Attribute { key, allowed_values } => ConditionView::Attribute {
                key: key@,
                allowed_values: allowed_values@,
            },
            ScopeCondition::Predicate { expression_ref } => ConditionView::Predicate {
                expression_ref: expression_ref@,
            },
        }
    }
}

impl Clone for ScopeCondition {
    fn clone(&self) -> (r: ScopeCondition)
        ensures
            r@ == self@,
    {
        match self {
            ScopeCondition::Attribute { key, allowed_values } => ScopeCondition::Attribute {
                key: key.clone(),
                allowed_values: allowed_values.clone(),
            },
            ScopeCondition::Predicate { expression_ref } => ScopeCondition::Predicate {
                expression_ref: expression_ref.clone(),
            },
        }
    }
}

impl ScopeCondition {
    /// The form of the condition.
    pub fn label(&self) -> (r: &'static str)
        ensures
            r@ == self@.label(),
    {
        match self {
            ScopeCondition::Attribute { .. } => "attribute",
            ScopeCondition::Predicate { .. } => "predicate",
        }
    }

    /// The condition in words.
    pub fn to_string(&self) -> (r: String)
        ensures
            r@ == self@.text(),
    {
        match self {
            ScopeCondition::Attribute { key, allowed_values } => {
                let list = quote_list(allowed_values);
                cat4(key.as_str(), " in {", list.as_str(), "}")
            },
            ScopeCondition::Predicate { expression_ref } => cat2(
                expression_ref.as_str(),
                " holds",
            ),
        }
    }

    /// Whether two conditions are the same.
    pub fn same(&self, other: &ScopeCondition) -> (r: bool)
        ensures
            r == (self@ == other@),
    {
        match (self, other) {
            (
                ScopeCondition::Attribute { key, allowed_values },
                ScopeCondition::Attribute { key: k, allowed_values: a },
            ) => same_text(key.as_str(), k.as_str()) && allowed_values.same(a),
            (
                ScopeCondition::Predicate { expression_ref },
                ScopeCondition::Predicate { expression_ref: e },
            ) => same_text(expression_ref.as_str(), e.as_str()),
            _ => false,
        }
    }

    /// Whether an act satisfies the condition.
    pub fn holds(&self, request: &ScopeRequest) -> (r: bool)
        ensures
            r == self@.holds(request@),
    {
        match self {
            ScopeCondition::Attribute { key, allowed_values } => match request.attribute(
                key.as_str(),
            ) {
                Some(v) => allowed_values.contains(v.as_str()),
                None => false,
            },
            ScopeCondition::Predicate { expression_ref } => match request.predicate(
                expression_ref.as_str(),
            ) {
                Some(b) => b,
                None => false,
            },
        }
    }

    fn write(&self, w: &mut CanonicalWriter)
        ensures
            final(w)@ == old(w)@ + self@.bytes(),
    {
        match self {
            ScopeCondition::Attribute { key, allowed_values } => {
                w.write_tag(0);
                w.write_str(key.as_str());
                let layer = LayerConstraint::Only(allowed_values.clone());
                layer.write(w);
            },
            ScopeCondition::Predicate { expression_ref } => {
                w.write_tag(1);
                w.write_str(expression_ref.as_str());
            },
        }
        assert(w@ =~= old(w)@ + self@.bytes());
    }
}

/// The scope of a delegation.
#[derive(Debug, PartialEq, Eq)]
pub struct DelegationScope {
    /// The authorities admitted.
    pub authority: LayerConstraint,
    /// The `<profile-id>@<version>` tokens admitted.
    pub profile_version: LayerConstraint,
    /// The product groups admitted.
    pub product_group: LayerConstraint,
    /// The moments admitted.
    pub window: WindowConstraint,
    /// The conditions that an act must satisfy.
    pub conditions: Vec<ScopeCondition>,
}

/// A scope as a mathematical value.
#[verifier::ext_equal]
pub struct ScopeView {
    /// See [`DelegationScope::authority`].
    pub authority: LayerView,
    /// See [`DelegationScope::profile_version`].
    pub profile_version: LayerView,
    /// See [`DelegationScope::product_group`].
    pub product_group: LayerView,
    /// See [`DelegationScope::window`].
    pub window: WindowConstraint,
    /// See [`DelegationScope::conditions`].
    pub conditions: Seq<ConditionView>,
}

/// The conditions of a list as mathematical values.
pub open spec fn condition_views(s: Seq<ScopeCondition>) -> Seq<ConditionView> {
    s.map_values(|c: ScopeCondition| c@)
}

/// The conditions of both lists: those of the first, then those of the second
/// that are not there yet.
pub open spec fn condition_union(a: Seq<ConditionView>, b: Seq<ConditionView>) -> Seq<
    ConditionView,
>
    decreases b.len(),
{
    if b.len() == 0 {
        a
    } else {
        let front = condition_union(a, b.drop_last());
        if front.contains(b.last()) {
            front
        } else {
            front.push(b.last())
        }
    }
}

/// The first condition of a list that an act does not satisfy.
pub open spec fn first_failing(conditions: Seq<ConditionView>, request: RequestView) -> Option<
    int,
>
    decreases conditions.len(),
{
    if conditions.len() == 0 {
        None
    } else {
        match first_failing(conditions.drop_last(), request) {
            Some(i) => Some(i),
            None => if conditions.last().holds(request) {
                None
            } else {
                Some(conditions.len() - 1)
            },
        }
    }
}

/// The canonical bytes of conditions.
pub open spec fn condition_bytes(s: Seq<ConditionView>) -> Seq<u8>
    decreases s.len(),
{
    if s.len() == 0 {
        Seq::empty()
    } else {
        condition_bytes(s.drop_last()) + s.last().bytes()
    }
}

impl ScopeView {
    /// Whether the scope admits an act on all four layers.
    pub open spec fn matches(self, request: RequestView) -> bool {
        &&& layer_admits(self.authority, request.authority)
        &&& layer_admits(self.profile_version, request.profile_version)
        &&& layer_admits(self.product_group, request.product_group)
        &&& self.window.has(request.at)
    }

    /// The first layer that rejects an act.
    pub open spec fn rejecting_layer(self, request: RequestView) -> Option<Seq<char>> {
        if !layer_admits(self.authority, request.authority) {
            Some(LAYER_AUTHORITY@)
        } else if !layer_admits(self.profile_version, request.profile_version) {
            Some(LAYER_PROFILE_VERSION@)
        } else if !layer_admits(self.product_group, request.product_group) {
            Some(LAYER_PRODUCT_GROUP@)
        } else if !self.window.has(request.at) {
            Some(LAYER_WINDOW@)
        } else {
            None
        }
    }

    /// Whether some layer admits nothing.
    pub open spec fn contradiction(self) -> bool {
        layer_contradiction(self.authority) || layer_contradiction(self.profile_version)
            || layer_contradiction(self.product_group)
    }

    /// Whether every layer entails the corresponding layer of `child`.
    pub open spec fn admits(self, child: ScopeView) -> bool {
        &&& layer_entails(self.authority, child.authority)
        &&& layer_entails(self.profile_version, child.profile_version)
        &&& layer_entails(self.product_group, child.product_group)
        &&& self.window.covers(child.window)
    }

    /// What the first layer says that does not entail the corresponding layer
    /// of `child`.
    pub open spec fn widening(self, child: ScopeView) -> Seq<char> {
        if !layer_entails(self.authority, child.authority) {
            mismatch_text(
                LAYER_AUTHORITY@,
                layer_text(self.authority),
                layer_text(child.authority),
            )
        } else if !layer_entails(self.profile_version, child.profile_version) {
            mismatch_text(
                LAYER_PROFILE_VERSION@,
                layer_text(self.profile_version),
                layer_text(child.profile_version),
            )
        } else if !layer_entails(self.product_group, child.product_group) {
            mismatch_text(
                LAYER_PRODUCT_GROUP@,
                layer_text(self.product_group),
                layer_text(child.product_group),
            )
        } else {
            mismatch_text(LAYER_WINDOW@, self.window.text(), child.window.text())
        }
    }

    /// Whether `r` is the effective scope of a delegation from this scope to
    /// `child`: the layers intersect, the conditions unite.
    pub open spec fn narrowed(self, child: ScopeView, r: ScopeView) -> bool {
        &&& layer_meet(self.authority, child.authority, r.authority)
        &&& layer_meet(self.profile_version, child.profile_version, r.profile_version)
        &&& layer_meet(self.product_group, child.product_group, r.product_group)
        &&& self.window.meet(child.window) == Ok::<WindowConstraint, ErrorView>(r.window)
        &&& r.conditions == condition_union(self.conditions, child.conditions)
    }

    /// The error of narrowing this scope to `child`, if there is one.
    pub open spec fn narrow_error(self, child: ScopeView) -> Option<ErrorView> {
        if !self.admits(child) {
            Some(
                ErrorView::ScopeViolation(
                    "delegation must narrow monotonically: "@ + self.widening(child),
                ),
            )
        } else if layers_disjoint(self.authority, child.authority) || layers_disjoint(
            self.profile_version,
            child.profile_version,
        ) || layers_disjoint(self.product_group, child.product_group) {
            Some(
                ErrorView::ScopeViolation("layer intersection is empty (disjoint constraints)"@),
            )
        } else {
            match self.window.meet(child.window) {
                Ok(_) => None,
                Err(e) => Some(e),
            }
        }
    }

    /// The effective scope of a delegation from this scope to `child`. As the
    /// child narrows every layer, the intersection of the layers is the
    /// child's layers.
    pub open spec fn narrow_to(self, child: ScopeView) -> Result<ScopeView, ErrorView> {
        match self.narrow_error(child) {
            Some(e) => Err(e),
            None => Ok(
                ScopeView {
                    conditions: condition_union(self.conditions, child.conditions),
                    ..child
                },
            ),
        }
    }

    /// The canonical bytes of the scope: the four layers, and the conditions if
    /// there are any.
    pub open spec fn bytes(self) -> Seq<u8> {
        layer_bytes(self.authority) + layer_bytes(self.profile_version) + layer_bytes(
            self.product_group,
        ) + self.window.bytes() + if self.conditions.len() == 0 {
            Seq::empty()
        } else {
            spec_u32_to_le_bytes(self.conditions.len() as u32) + condition_bytes(self.conditions)
        }
    }
}

impl View for DelegationScope {
    type V = ScopeView;

    open spec fn view(&self) -> ScopeView {
        ScopeView {
            authority: self.authority@,
            profile_version: self.profile_version@,
            product_group: self.product_group@,
            window: self.window,
            conditions: condition_views(self.conditions@),
        }
    }
}

/// A copy of a list of conditions.
pub fn copy_conditions(s: &Vec<ScopeCondition>) -> (r: Vec<ScopeCondition>)
    ensures
        condition_views(r@) == condition_views(s@),
{
    let mut out: Vec<ScopeCondition> = Vec::new();
    let mut i: usize = 0;
    while i < s.len()
        invariant
            i <= s.len(),
            condition_views(out@) =~= condition_views(s@).take(i as int),
        decreases s.len() - i,
    {
        let ghost before = condition_views(out@);
        out.push(s[i].clone());
        assert(condition_views(out@) =~= before.push(s@[i as int]@));
        i += 1;
    }
    out
}

impl Clone for DelegationScope {
    fn clone(&self) -> (r: DelegationScope)
        ensures
            r@ == self@,
    {
        DelegationScope {
            authority: self.authority.clone(),
            profile_version: self.profile_version.clone(),
            product_group: self.product_group.clone(),
            window: self.window,
            conditions: copy_conditions(&self.conditions),
        }
    }
}

impl Default for DelegationScope {
    fn default() -> (r: DelegationScope)
        ensures
            r@ == ScopeView::unconstrained(),
    {
        DelegationScope::unconstrained()
    }
}

impl ScopeView {
    /// The scope that admits everything.
    pub open spec fn unconstrained() -> ScopeView {
        ScopeView {
            authority: None,
            profile_version: None,
            product_group: None,
            window: WindowConstraint::Anytime,
            conditions: Seq::empty(),
        }
    }
}

/// The position of a condition in a list.
pub fn find_condition(s: &Vec<ScopeCondition>, c: &ScopeCondition) -> (r: bool)
    ensures
        r == condition_views(s@).contains(c@),
{
    let mut i: usize = 0;
    while i < s.len()
        invariant
            i <= s.len(),
            forall|k: int| 0 <= k < i ==> #[trigger] condition_views(s@)[k] != c@,
        decreases s.len() - i,
    {
        if s[i].same(c) {
            assert(condition_views(s@)[i as int] == c@);
            return true;
        }
        i += 1;
    }
    false
}

impl DelegationScope {
    /// The scope that admits everything.
    pub fn unconstrained() -> (r: DelegationScope)
        ensures
            r@ == ScopeView::unconstrained(),
    {
        let r = DelegationScope {
            authority: LayerConstraint::Any,
            profile_version: LayerConstraint::Any,
            product_group: LayerConstraint::Any,
            window: WindowConstraint::Anytime,
            conditions: Vec::new(),
        };
        assert(r@.conditions =~= Seq::<ConditionView>::empty());
        r
    }

    /// The scope with the authority layer replaced.
    pub fn authority(self, values: &[&str]) -> (r: DelegationScope)
        ensures
            r@ == (ScopeView { authority: r@.authority, ..self@ }),
            r@.authority matches Some(v) && v.to_set() == str_texts(values@).to_set() && ascending(
                v,
            ),
    {
        let mut out = self;
        out.authority = LayerConstraint::only(values);
        out
    }

    /// The scope with the profile version layer replaced.
    pub fn profile_version(self, values: &[&str]) -> (r: DelegationScope)
        ensures
            r@ == (ScopeView { profile_version: r@.profile_version, ..self@ }),
            r@.profile_version matches Some(v) && v.to_set() == str_texts(values@).to_set()
                && ascending(v),
    {
        let mut out = self;
        out.profile_version = LayerConstraint::only(values);
        out
    }

    /// The scope with the product group layer replaced.
    pub fn product_group(self, values: &[&str]) -> (r: DelegationScope)
        ensures
            r@ == (ScopeView { product_group: r@.product_group, ..self@ }),
            r@.product_group matches Some(v) && v.to_set() == str_texts(values@).to_set()
                && ascending(v),
    {
        let mut out = self;
        out.product_group = LayerConstraint::only(values);
        out
    }

    /// The scope with the window replaced.
    pub fn within(self, window: Interval) -> (r: DelegationScope)
        ensures
            r@ == (ScopeView { window: WindowConstraint::Within(window), ..self@ }),
    {
        let mut out = self;
        out.window = WindowConstraint::Within(window);
        out
    }

    /// The scope with one more condition.
    pub fn condition(self, condition: ScopeCondition) -> (r: DelegationScope)
        ensures
            r@ == (ScopeView { conditions: self@.conditions.push(condition@), ..self@ }),
    {
        let mut out = self;
        out.conditions.push(condition);
        assert(out@.conditions =~= self@.conditions.push(condition@));
        out
    }

    /// Whether some layer admits nothing.
    pub fn is_contradiction(&self) -> (r: bool)
        ensures
            r == self@.contradiction(),
    {
        self.authority.is_contradiction() || self.profile_version.is_contradiction()
            || self.product_group.is_contradiction()
    }

    /// Whether `child` narrows this scope on every layer.
    pub fn admits(&self, child: &DelegationScope) -> (r: bool)
        ensures
            r == self@.admits(child@),
    {
        self.authority.entails(&child.authority) && self.profile_version.entails(
            &child.profile_version,
        ) && self.product_group.entails(&child.product_group) && self.window.entails(&child.window)
    }

    /// The effective scope of a delegation from this scope to `child`. It is
    /// an error for the child to widen a layer, or for a layer to end up
    /// admitting nothing.
    pub fn narrow(&self, child: &DelegationScope) -> (r: Result<DelegationScope, SignatifError>)
        ensures
            r is Err == self@.narrow_error(child@) is Some,
            r matches Err(e) ==> Some(e@) == self@.narrow_error(child@),
            r matches Ok(s) ==> self@.narrowed(child@, s@) && self@.narrow_to(child@) == Ok::<
                ScopeView,
                ErrorView,
            >(s@),
    {
        let detail = match self.authority.mismatch_detail(&child.authority, LAYER_AUTHORITY) {
            Some(d) => Some(d),
            None => match self.profile_version.mismatch_detail(
                &child.profile_version,
                LAYER_PROFILE_VERSION,
            ) {
                Some(d) => Some(d),
                None => match self.product_group.mismatch_detail(
                    &child.product_group,
                    LAYER_PRODUCT_GROUP,
                ) {
                    Some(d) => Some(d),
                    None => if self.window.entails(&child.window) {
                        None
                    } else {
                        Some(
                            widening(
                                LAYER_WINDOW,
                                self.window.to_text().as_str(),
                                child.window.to_text().as_str(),
                            ),
                        )
                    },
                },
            },
        };
        if let Some(d) = detail {
            return Err(
                SignatifError::ScopeViolation(
                    cat2("delegation must narrow monotonically: ", d.as_str()),
                ),
            );
        }
        let authority = match self.authority.intersect(&child.authority) {
            Ok(l) => l,
            Err(e) => {
                return Err(e);
            },
        };
        let profile_version = match self.profile_version.intersect(&child.profile_version) {
            Ok(l) => l,
            Err(e) => {
                return Err(e);
            },
        };
        let product_group = match self.product_group.intersect(&child.product_group) {
            Ok(l) => l,
            Err(e) => {
                return Err(e);
            },
        };
        child.authority.reveal_order();
        child.profile_version.reveal_order();
        child.product_group.reveal_order();
        proof {
            lemma_entailed_meet(self@.authority, child@.authority, authority@);
            lemma_entailed_meet(self@.profile_version, child@.profile_version, profile_version@);
            lemma_entailed_meet(self@.product_group, child@.product_group, product_group@);
        }
        let window = match self.window.intersect(&child.window) {
            Ok(w) => w,
            Err(e) => {
                return Err(e);
            },
        };
        let mut conditions = copy_conditions(&self.conditions);
        let mut i: usize = 0;
        let ghost own = child@.conditions;
        assert(own.take(0) =~= Seq::<ConditionView>::empty());
        while i < child.conditions.len()
            invariant
                i <= child.conditions.len(),
                own == condition_views(child.conditions@),
                condition_views(conditions@) == condition_union(
                    self@.conditions,
                    own.take(i as int),
                ),
            decreases child.conditions.len() - i,
        {
            proof {
                assert(own.take(i + 1).drop_last() =~= own.take(i as int));
                assert(own.take(i + 1).last() == child.conditions@[i as int]@);
            }
            if !find_condition(&conditions, &child.conditions[i]) {
                let ghost before = condition_views(conditions@);
                conditions.push(child.conditions[i].clone());
                assert(condition_views(conditions@) =~= before.push(
                    child.conditions@[i as int]@,
                ));
            }
            i += 1;
        }
        assert(own.take(i as int) =~= own);
        Ok(DelegationScope { authority, profile_version, product_group, window, conditions })
    }

    /// Whether the scope admits an act on all four layers.
    pub fn matches(&self, request: &ScopeRequest) -> (r: bool)
        ensures
            r == self@.matches(request@),
    {
        self.authority.contains(request.authority.as_str()) && self.profile_version.contains(
            request.profile_version.as_str(),
        ) && self.product_group.contains(request.product_group.as_str()) && self.window.contains(
            request.at,
        )
    }

    /// The name of the first layer that rejects an act.
    pub fn rejecting_layer(&self, request: &ScopeRequest) -> (r: Option<&'static str>)
        ensures
            r is Some == self@.rejecting_layer(request@) is Some,
            r matches Some(l) ==> l@ == self@.rejecting_layer(request@)->0,
            r is None == self@.matches(request@),
    {
        if !self.authority.contains(request.authority.as_str()) {
            Some(LAYER_AUTHORITY)
        } else if !self.profile_version.contains(request.profile_version.as_str()) {
            Some(LAYER_PROFILE_VERSION)
        } else if !self.product_group.contains(request.product_group.as_str()) {
            Some(LAYER_PRODUCT_GROUP)
        } else if !self.window.contains(request.at) {
            Some(LAYER_WINDOW)
        } else {
            None
        }
    }

    /// The first condition that an act does not satisfy.
    pub fn first_failed_condition(&self, request: &ScopeRequest) -> (r: Option<&ScopeCondition>)
        ensures
            r is Some == first_failing(self@.conditions, request@) is Some,
            r matches Some(c) ==> c@ == self@.conditions[first_failing(
                self@.conditions,
                request@,
            )->0],
    {
        let ghost all = self@.conditions;
        let mut i: usize = 0;
        assert(all.take(0) =~= Seq::<ConditionView>::empty());
        while i < self.conditions.len()
            invariant
                i <= self.conditions.len(),
                all == condition_views(self.conditions@),
                first_failing(all.take(i as int), request@) is None,
            decreases self.conditions.len() - i,
        {
            proof {
                assert(all.take(i + 1).drop_last() =~= all.take(i as int));
                assert(all.take(i + 1).last() == self.conditions@[i as int]@);
            }
            if !self.conditions[i].holds(request) {
                proof {
                    lemma_first_failing_prefix(all, i + 1, request@);
                }
                return Some(&self.conditions[i]);
            }
            i += 1;
        }
        assert(all.take(i as int) =~= all);
        None
    }

    /// Checks the conditions; the error is the first one that fails.
    pub fn check_conditions(&self, request: &ScopeRequest) -> (r: Result<(), &ScopeCondition>)
        ensures
            r is Err == first_failing(self@.conditions, request@) is Some,
            r matches Err(c) ==> c@ == self@.conditions[first_failing(
                self@.conditions,
                request@,
            )->0],
    {
        match self.first_failed_condition(request) {
            Some(c) => Err(c),
            None => Ok(()),
        }
    }

    /// The canonical bytes of the scope, which a credential's signature
    /// covers.
    pub fn canonical_bytes(&self) -> (r: Vec<u8>)
        ensures
            r@ == self@.bytes(),
    {
        let mut w = CanonicalWriter::new();
        self.authority.write(&mut w);
        self.profile_version.write(&mut w);
        self.product_group.write(&mut w);
        self.window.write(&mut w);
        assert(self@.conditions.len() == self.conditions@.len());
        if self.conditions.len() == 0 {
            assert(w@ =~= self@.bytes());
            return w.into_bytes();
        }
        w.write_u32(self.conditions.len() as u32);
        let ghost start = w@;
        let ghost all = self@.conditions;
        let mut i: usize = 0;
        assert(condition_bytes(all.take(0)) =~= Seq::<u8>::empty());
        while i < self.conditions.len()
            invariant
                i <= self.conditions.len(),
                all == condition_views(self.conditions@),
                w@ =~= start + condition_bytes(all.take(i as int)),
            decreases self.conditions.len() - i,
        {
            proof {
                assert(all.take(i + 1).drop_last() =~= all.take(i as int));
                assert(all.take(i + 1).last() == self.conditions@[i as int]@);
            }
            self.conditions[i].write(&mut w);
            i += 1;
        }
        assert(all.take(i as int) =~= all);
        assert(w@ =~= self@.bytes());
        w.into_bytes()
    }
}

/// The intersection of a layer with one that it entails is the entailed one.
proof fn lemma_entailed_meet(outer: LayerView, inner: LayerView, r: LayerView)
    requires
        layer_entails(outer, inner),
        layer_meet(outer, inner, r),
        inner matches Some(v) ==> ascending(v),
    ensures
        r == inner,
{
    if outer is Some && inner is Some {
        assert(outer->0.to_set().intersect(inner->0.to_set()) =~= inner->0.to_set());
        crate::sets::lemma_ascending_determined(r->0, inner->0);
    }
}

proof fn lemma_first_failing_prefix(all: Seq<ConditionView>, n: int, request: RequestView)
    requires
        0 <= n <= all.len(),
        first_failing(all.take(n), request) is Some,
    ensures
        first_failing(all, request) == first_failing(all.take(n), request),
    decreases all.len() - n,
{
    if n == all.len() {
        assert(all.take(n) =~= all);
    } else {
        assert(all.take(n + 1).drop_last() =~= all.take(n));
        lemma_first_failing_prefix(all, n + 1, request);
    }
}

/// An act to be checked against a scope: an authority attests a versioned
/// profile for a product group at a moment.
#[derive(Debug, Clone, PartialEq, Eq)]
pub struct ScopeRequest {
    /// The acting authority.
    pub authority: String,
    /// The `<profile-id>@<version>` being attested.
    pub profile_version: String,
    /// The product group of the subject.
    pub product_group: String,
    /// The moment of the act.
    pub at: Timestamp,
    /// The attributes recorded for the act; the last value of a key counts.
    pub attributes: Vec<(String, String)>,
    /// The predicates evaluated for the act; the last outcome counts.
    pub predicates: Vec<(String, bool)>,
}

/// An act as a mathematical value.
#[verifier::ext_equal]
pub struct RequestView {
    /// See [`ScopeRequest::authority`].
    pub authority: Seq<char>,
    /// See [`ScopeRequest::profile_version`].
    pub profile_version: Seq<char>,
    /// See [`ScopeRequest::product_group`].
    pub product_group: Seq<char>,
    /// See [`ScopeRequest::at`].
    pub at: Timestamp,
    /// See [`ScopeRequest::attributes`].
    pub attributes: Seq<(Seq<char>, Seq<char>)>,
    /// See [`ScopeRequest::predicates`].
    pub predicates: Seq<(Seq<char>, bool)>,
}

impl View for ScopeRequest {
    type V = RequestView;

    open spec fn view(&self) -> RequestView {
        RequestView {
            authority: self.authority@,
            profile_version: self.profile_version@,
            product_group: self.product_group@,
            at: self.at,
            attributes: self.attributes@.map_values(|p: (String, String)| (p.0@, p.1@)),
            predicates: self.predicates@.map_values(|p: (String, bool)| (p.0@, p.1)),
        }
    }
}

impl ScopeRequest {
    /// An act with nothing recorded for it.
    pub fn new(authority: &str, profile_version: &str, product_group: &str, at: Timestamp) -> (r:
        ScopeRequest)
        ensures
            r@ == (RequestView {
                authority: authority@,
                profile_version: profile_version@,
                product_group: product_group@,
                at,
                attributes: Seq::empty(),
                predicates: Seq::empty(),
            }),
    {
        let r = ScopeRequest {
            authority: authority.to_owned(),
            profile_version: profile_version.to_owned(),
            product_group: product_group.to_owned(),
            at,
            attributes: Vec::new(),
            predicates: Vec::new(),
        };
        assert(r@.attributes =~= Seq::<(Seq<char>, Seq<char>)>::empty());
        assert(r@.predicates =~= Seq::<(Seq<char>, bool)>::empty());
        r
    }

    /// The act with an attribute recorded.
    pub fn with_attribute(self, key: &str, value: &str) -> (r: ScopeRequest)
        ensures
            r@ == (RequestView { attributes: self@.attributes.push((key@, value@)), ..self@ }),
    {
        let mut out = self;
        out.attributes.push((key.to_owned(), value.to_owned()));
        assert(out@.attributes =~= self@.attributes.push((key@, value@)));
        out
    }

    /// The act with the outcome of a predicate recorded.
    pub fn with_predicate(self, expression_ref: &str, outcome: bool) -> (r: ScopeRequest)
        ensures
            r@ == (RequestView {
                predicates: self@.predicates.push((expression_ref@, outcome)),
                ..self@
            }),
    {
        let mut out = self;
        out.predicates.push((expression_ref.to_owned(), outcome));
        assert(out@.predicates =~= self@.predicates.push((expression_ref@, outcome)));
        out
    }

    /// The value recorded for an attribute.
    pub fn attribute(&self, key: &str) -> (r: Option<&String>)
        ensures
            r is Some == last_value(self@.attributes, key@) is Some,
            r matches Some(v) ==> v@ == last_value(self@.attributes, key@)->0,
    {
        let ghost all = self@.attributes;
        let mut i: usize = self.attributes.len();
        assert(all.take(i as int) =~= all);
        while i > 0
            invariant
                i <= self.attributes.len(),
                all == self@.attributes,
                last_value(all.take(i as int), key@) == last_value(all, key@),
            decreases i,
        {
            proof {
                assert(all.take(i as int).drop_last() =~= all.take(i - 1));
                assert(all.take(i as int).last() == all[i - 1]);
            }
            if same_text(self.attributes[i - 1].0.as_str(), key) {
                return Some(&self.attributes[i - 1].1);
            }
            i -= 1;
        }
        None
    }

    /// The outcome recorded for a predicate.
    pub fn predicate(&self, expression_ref: &str) -> (r: Option<bool>)
        ensures
            r == last_value(self@.predicates, expression_ref@),
    {
        let ghost all = self@.predicates;
        let mut i: usize = self.predicates.len();
        assert(all.take(i as int) =~= all);
        while i > 0
            invariant
                i <= self.predicates.len(),
                all == self@.predicates,
                last_value(all.take(i as int), expression_ref@) == last_value(all, expression_ref@),
            decreases i,
        {
            proof {
                assert(all.take(i as int).drop_last() =~= all.take(i - 1));
                assert(all.take(i as int).last() == all[i - 1]);
            }
            if same_text(self.predicates[i - 1].0.as_str(), expression_ref) {
                return Some(self.predicates[i - 1].1);
            }
            i -= 1;
        }
        None
    }
}

/// A narrowed scope admits no act that the scope it narrows, or the scope it
/// was narrowed to, does not admit; and it carries the conditions of both.
pub proof fn narrowing_never_widens(
    parent: ScopeView,
    child: ScopeView,
    effective: ScopeView,
    request: RequestView,
)
    requires
        parent.narrowed(child, effective),
    ensures
        effective.matches(request) ==> parent.matches(request) && child.matches(request),
        forall|c: ConditionView| #[trigger]
            effective.conditions.contains(c) == (parent.conditions.contains(c)
                || child.conditions.contains(c)),
{
    lemma_meet_admits(
        parent.authority,
        child.authority,
        effective.authority,
        request.authority,
    );
    lemma_meet_admits(
        parent.profile_version,
        child.profile_version,
        effective.profile_version,
        request.profile_version,
    );
    lemma_meet_admits(
        parent.product_group,
        child.product_group,
        effective.product_group,
        request.product_group,
    );
    lemma_union_contains(parent.conditions, child.conditions);
}

/// What narrowing gives: the acts of the child, all of which the parent admits,
/// and the conditions of both.
pub proof fn lemma_narrow_to(
    parent: ScopeView,
    child: ScopeView,
    effective: ScopeView,
    request: RequestView,
)
    requires
        parent.narrow_to(child) == Ok::<ScopeView, ErrorView>(effective),
    ensures
        effective.matches(request) == child.matches(request),
        child.matches(request) ==> parent.matches(request),
        forall|c: ConditionView| #[trigger]
            parent.conditions.contains(c) ==> effective.conditions.contains(c),
        forall|c: ConditionView| #[trigger]
            child.conditions.contains(c) ==> effective.conditions.contains(c),
{
    lemma_union_contains(parent.conditions, child.conditions);
    lemma_entailment_admits(parent.authority, child.authority, request.authority);
    lemma_entailment_admits(
        parent.profile_version,
        child.profile_version,
        request.profile_version,
    );
    lemma_entailment_admits(parent.product_group, child.product_group, request.product_group);
}

/// Where a scope admits another, narrowing to it gives exactly what the other
/// admits.
pub proof fn narrowing_gives_the_child(
    parent: ScopeView,
    child: ScopeView,
    effective: ScopeView,
    request: RequestView,
)
    requires
        parent.admits(child),
        parent.narrowed(child, effective),
    ensures
        effective.matches(request) == child.matches(request),
{
    narrowing_never_widens(parent, child, effective, request);
    lemma_meet_admits(
        parent.authority,
        child.authority,
        effective.authority,
        request.authority,
    );
    lemma_meet_admits(
        parent.profile_version,
        child.profile_version,
        effective.profile_version,
        request.profile_version,
    );
    lemma_meet_admits(
        parent.product_group,
        child.product_group,
        effective.product_group,
        request.product_group,
    );
    lemma_entailment_admits(parent.authority, child.authority, request.authority);
    lemma_entailment_admits(parent.profile_version, child.profile_version, request.profile_version);
    lemma_entailment_admits(parent.product_group, child.product_group, request.product_group);
}

proof fn lemma_meet_admits(a: LayerView, b: LayerView, r: LayerView, v: Seq<char>)
    requires
        layer_meet(a, b, r),
    ensures
        layer_admits(r, v) == (layer_admits(a, v) && layer_admits(b, v)),
{
    if a is Some && b is Some {
        assert(r->0.to_set().contains(v) == r->0.contains(v));
        assert(a->0.to_set().contains(v) == a->0.contains(v));
        assert(b->0.to_set().contains(v) == b->0.contains(v));
    }
}

proof fn lemma_entailment_admits(outer: LayerView, inner: LayerView, v: Seq<char>)
    requires
        layer_entails(outer, inner),
    ensures
        layer_admits(inner, v) ==> layer_admits(outer, v),
{
    if outer is Some && inner is Some {
        assert(outer->0.to_set().contains(v) == outer->0.contains(v));
        assert(inner->0.to_set().contains(v) == inner->0.contains(v));
    }
}

proof fn lemma_union_contains(a: Seq<ConditionView>, b: Seq<ConditionView>)
    ensures
        forall|c: ConditionView| #[trigger]
            condition_union(a, b).contains(c) == (a.contains(c) || b.contains(c)),
    decreases b.len(),
{
    if b.len() > 0 {
        lemma_union_contains(a, b.drop_last());
        let front = condition_union(a, b.drop_last());
        assert forall|c: ConditionView| #[trigger]
            condition_union(a, b).contains(c) == (a.contains(c) || b.contains(c)) by {
            assert(b == b.drop_last().push(b.last()));
            crate::sets::lemma_push_to_set(b.drop_last(), b.last());
            assert(b.to_set().contains(c) == b.contains(c));
            assert(b.drop_last().to_set().contains(c) == b.drop_last().contains(c));
            crate::sets::lemma_push_to_set(front, b.last());
            assert(front.push(b.last()).to_set().contains(c) == front.push(b.last()).contains(c));
            assert(front.to_set().contains(c) == front.contains(c));
        }
    }
}

} // verus!
