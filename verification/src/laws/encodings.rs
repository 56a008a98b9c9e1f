//! What is signed tells what was said: two things with the same canonical bytes
//! are the same in everything that the bytes cover.

use vstd::bytes::{spec_u32_to_le_bytes, spec_u64_to_le_bytes};
use vstd::prelude::*;

use crate::accreditation::{grant_bytes, sorted_bytes};
use crate::anchor::SignedTreeHead;
use crate::bytes::utf8;
use crate::canon::{
    bool_bytes, field, fields, i64_bytes, list_bytes, option_bytes, option_number_bytes,
    option_text, text_field, text_fields,
};
use crate::declaration::{declaration_bytes, PostureView};
use crate::device::{certificate_bytes, prefix_bytes, slot_bytes, EdgeCommitment};
use crate::digest::sha256_of;
use crate::exchange::{S13Outcome, S13Request, S13Response};
use crate::graph::{credential_bytes, witness_bytes};
use crate::hierarchy::{calibration_bytes, link_bytes, text_or_nothing, HierarchyTier};
use crate::merkle::collide;
use crate::revoke::{quorum_bytes, ReasonView, RevocationView, SubjectView};
use crate::rollup::RollupAttestation;
use crate::s13::authority_payload;
use crate::scope::{
    condition_bytes, layer_bytes, value_fields, ConditionView, LayerView, ScopeView,
    WindowConstraint,
};
use crate::segments::{segment_entry, PolicyObject, RevealClass};
use crate::sets::texts;
use crate::sovereign::{AttestationStatement, ClaimClass};
use crate::time::Timestamp;
use crate::transport::relay_bytes;
use crate::verify::stamp;

verus! {

/// Whether the length of a text's bytes is a machine number.
pub open spec fn fits(s: Seq<char>) -> bool {
    utf8(s).len() <= u64::MAX
}

/// Whether the lengths of all texts of a list, and of the list, are machine
/// numbers.
pub open spec fn all_fit(s: Seq<Seq<char>>) -> bool {
    s.len() <= u64::MAX && forall|i: int| 0 <= i < s.len() ==> fits(#[trigger] s[i])
}

/// Texts with the same bytes are the same.
pub proof fn texts_differ_in_bytes(a: Seq<char>, b: Seq<char>)
    requires
        utf8(a) == utf8(b),
    ensures
        a == b,
{
    vstd::utf8::encode_utf8_decode_utf8(a);
    vstd::utf8::encode_utf8_decode_utf8(b);
}

proof fn lemma_front(p: Seq<u8>, x: Seq<u8>, q: Seq<u8>, y: Seq<u8>)
    requires
        p.len() == q.len(),
        p + x == q + y,
    ensures
        p == q,
        x == y,
{
    assert(p =~= (p + x).take(p.len() as int));
    assert(q =~= (q + y).take(q.len() as int));
    assert(x =~= (p + x).skip(p.len() as int));
    assert(y =~= (q + y).skip(q.len() as int));
}

proof fn lemma_u64_front(m: u64, x: Seq<u8>, n: u64, y: Seq<u8>)
    requires
        spec_u64_to_le_bytes(m) + x == spec_u64_to_le_bytes(n) + y,
    ensures
        m == n,
        x == y,
{
    vstd::bytes::lemma_auto_spec_u64_to_from_le_bytes();
    lemma_front(spec_u64_to_le_bytes(m), x, spec_u64_to_le_bytes(n), y);
}

proof fn lemma_u32_front(m: u32, x: Seq<u8>, n: u32, y: Seq<u8>)
    requires
        spec_u32_to_le_bytes(m) + x == spec_u32_to_le_bytes(n) + y,
    ensures
        m == n,
        x == y,
{
    vstd::bytes::lemma_auto_spec_u32_to_from_le_bytes();
    lemma_front(spec_u32_to_le_bytes(m), x, spec_u32_to_le_bytes(n), y);
}

proof fn lemma_i64(m: i64, n: i64)
    requires
        i64_bytes(m) == i64_bytes(n),
    ensures
        m == n,
{
    vstd::bytes::lemma_auto_spec_u64_to_from_le_bytes();
    assert(m as u64 == n as u64);
    assert(m as u64 == n as u64 ==> m == n) by (bit_vector);
}

proof fn lemma_i64_front(m: i64, x: Seq<u8>, n: i64, y: Seq<u8>)
    requires
        i64_bytes(m) + x == i64_bytes(n) + y,
    ensures
        m == n,
        x == y,
{
    vstd::bytes::lemma_auto_spec_u64_to_from_le_bytes();
    lemma_front(i64_bytes(m), x, i64_bytes(n), y);
    lemma_i64(m, n);
}

proof fn lemma_text_front(a: Seq<char>, x: Seq<u8>, b: Seq<char>, y: Seq<u8>)
    requires
        fits(a),
        fits(b),
        text_field(a) + x == text_field(b) + y,
    ensures
        a == b,
        x == y,
{
    crate::canon::lemma_split_field(utf8(a), x);
    crate::canon::lemma_split_field(utf8(b), y);
    texts_differ_in_bytes(a, b);
}

proof fn lemma_texts_front(a: Seq<Seq<char>>, x: Seq<u8>, b: Seq<Seq<char>>, y: Seq<u8>)
    requires
        all_fit(a),
        all_fit(b),
        a.len() == b.len(),
        text_fields(a) + x == text_fields(b) + y,
    ensures
        a == b,
        x == y,
    decreases a.len(),
{
    if a.len() == 0 {
        assert(text_fields(a) + x =~= x);
        assert(text_fields(b) + y =~= y);
        assert(a =~= b);
    } else {
        let s = a.drop_last();
        let t = b.drop_last();
        assert forall|i: int| 0 <= i < s.len() implies fits(#[trigger] s[i]) by {
            assert(fits(a[i]));
        }
        assert forall|i: int| 0 <= i < t.len() implies fits(#[trigger] t[i]) by {
            assert(fits(b[i]));
        }
        assert(text_fields(a) + x =~= text_fields(s) + (text_field(a.last()) + x));
        assert(text_fields(b) + y =~= text_fields(t) + (text_field(b.last()) + y));
        lemma_texts_front(s, text_field(a.last()) + x, t, text_field(b.last()) + y);
        assert(fits(a[a.len() - 1]) && fits(b[b.len() - 1]));
        lemma_text_front(a.last(), x, b.last(), y);
        assert(a =~= s.push(a.last()));
        assert(b =~= t.push(b.last()));
    }
}

proof fn lemma_list_front(a: Seq<Seq<char>>, x: Seq<u8>, b: Seq<Seq<char>>, y: Seq<u8>)
    requires
        all_fit(a),
        all_fit(b),
        list_bytes(a) + x == list_bytes(b) + y,
    ensures
        a == b,
        x == y,
{
    assert(list_bytes(a) + x =~= spec_u64_to_le_bytes(a.len() as u64) + (text_fields(a) + x));
    assert(list_bytes(b) + y =~= spec_u64_to_le_bytes(b.len() as u64) + (text_fields(b) + y));
    lemma_u64_front(a.len() as u64, text_fields(a) + x, b.len() as u64, text_fields(b) + y);
    lemma_texts_front(a, x, b, y);
}

proof fn lemma_bool_front(a: bool, x: Seq<u8>, b: bool, y: Seq<u8>)
    requires
        bool_bytes(a) + x == bool_bytes(b) + y,
    ensures
        a == b,
        x == y,
{
    lemma_front(bool_bytes(a), x, bool_bytes(b), y);
    assert(bool_bytes(a)[0] == bool_bytes(b)[0]);
}

/// Whether an optional text fits.
pub open spec fn option_fits(s: Option<Seq<char>>) -> bool {
    s matches Some(t) ==> fits(t)
}

proof fn lemma_option_front(a: Option<Seq<char>>, x: Seq<u8>, b: Option<Seq<char>>, y: Seq<u8>)
    requires
        option_fits(a),
        option_fits(b),
        option_bytes(a) + x == option_bytes(b) + y,
    ensures
        a == b,
        x == y,
{
    let p = if a is Some {
        text_field(a->0) + x
    } else {
        x
    };
    let q = if b is Some {
        text_field(b->0) + y
    } else {
        y
    };
    assert(option_bytes(a) + x =~= bool_bytes(a is Some) + p);
    assert(option_bytes(b) + y =~= bool_bytes(b is Some) + q);
    lemma_bool_front(a is Some, p, b is Some, q);
    if a is Some {
        lemma_text_front(a->0, x, b->0, y);
    }
}

proof fn lemma_option_number_front(a: Option<u64>, x: Seq<u8>, b: Option<u64>, y: Seq<u8>)
    requires
        option_number_bytes(a) + x == option_number_bytes(b) + y,
    ensures
        a == b,
        x == y,
{
    let p = if a is Some {
        spec_u64_to_le_bytes(a->0) + x
    } else {
        x
    };
    let q = if b is Some {
        spec_u64_to_le_bytes(b->0) + y
    } else {
        y
    };
    assert(option_number_bytes(a) + x =~= bool_bytes(a is Some) + p);
    assert(option_number_bytes(b) + y =~= bool_bytes(b is Some) + q);
    lemma_bool_front(a is Some, p, b is Some, q);
    if a is Some {
        lemma_u64_front(a->0, x, b->0, y);
    }
}

proof fn lemma_values_are_texts(s: Seq<Seq<char>>)
    ensures
        value_fields(s) == text_fields(s),
    decreases s.len(),
{
    if s.len() > 0 {
        lemma_values_are_texts(s.drop_last());
    }
}

/// Whether a layer's values fit, and their number in four bytes.
pub open spec fn layer_fits(layer: LayerView) -> bool {
    layer matches Some(values) ==> all_fit(values) && values.len() <= u32::MAX
}

proof fn lemma_layer_front(a: LayerView, x: Seq<u8>, b: LayerView, y: Seq<u8>)
    requires
        layer_fits(a),
        layer_fits(b),
        layer_bytes(a) + x == layer_bytes(b) + y,
    ensures
        a == b,
        x == y,
{
    assert((layer_bytes(a) + x)[0] == layer_bytes(a)[0]);
    assert((layer_bytes(b) + y)[0] == layer_bytes(b)[0]);
    match (a, b) {
        (Some(v), Some(w)) => {
            lemma_values_are_texts(v);
            lemma_values_are_texts(w);
            let one = seq![1u8];
            let p = spec_u32_to_le_bytes(v.len() as u32) + (text_fields(v) + x);
            let q = spec_u32_to_le_bytes(w.len() as u32) + (text_fields(w) + y);
            assert(layer_bytes(a) + x =~= one + p);
            assert(layer_bytes(b) + y =~= one + q);
            lemma_front(one, p, one, q);
            lemma_u32_front(v.len() as u32, text_fields(v) + x, w.len() as u32, text_fields(w) + y);
            lemma_texts_front(v, x, w, y);
        },
        (None, None) => {
            lemma_front(seq![0u8], x, seq![0u8], y);
        },
        _ => {},
    }
}

proof fn lemma_window_front(a: WindowConstraint, x: Seq<u8>, b: WindowConstraint, y: Seq<u8>)
    requires
        a.bytes() + x == b.bytes() + y,
    ensures
        a == b,
        x == y,
{
    assert((a.bytes() + x)[0] == a.bytes()[0]);
    assert((b.bytes() + y)[0] == b.bytes()[0]);
    match (a, b) {
        (WindowConstraint::Within(v), WindowConstraint::Within(w)) => {
            let one = seq![1u8];
            let vt = match v.to {
                None => x,
                Some(t) => i64_bytes(t.secs) + (spec_u32_to_le_bytes(t.nanos) + x),
            };
            let wt = match w.to {
                None => y,
                Some(t) => i64_bytes(t.secs) + (spec_u32_to_le_bytes(t.nanos) + y),
            };
            let p = i64_bytes(v.from.secs) + (spec_u32_to_le_bytes(v.from.nanos) + (bool_bytes(
                v.to is Some,
            ) + vt));
            let q = i64_bytes(w.from.secs) + (spec_u32_to_le_bytes(w.from.nanos) + (bool_bytes(
                w.to is Some,
            ) + wt));
            assert(a.bytes() + x =~= one + p);
            assert(b.bytes() + y =~= one + q);
            lemma_front(one, p, one, q);
            lemma_i64_front(
                v.from.secs,
                spec_u32_to_le_bytes(v.from.nanos) + (bool_bytes(v.to is Some) + vt),
                w.from.secs,
                spec_u32_to_le_bytes(w.from.nanos) + (bool_bytes(w.to is Some) + wt),
            );
            lemma_u32_front(
                v.from.nanos,
                bool_bytes(v.to is Some) + vt,
                w.from.nanos,
                bool_bytes(w.to is Some) + wt,
            );
            lemma_bool_front(v.to is Some, vt, w.to is Some, wt);
            if v.to is Some {
                let s = v.to->0;
                let t = w.to->0;
                lemma_i64_front(
                    s.secs,
                    spec_u32_to_le_bytes(s.nanos) + x,
                    t.secs,
                    spec_u32_to_le_bytes(t.nanos) + y,
                );
                lemma_u32_front(s.nanos, x, t.nanos, y);
            }
        },
        (WindowConstraint::Anytime, WindowConstraint::Anytime) => {
            lemma_front(seq![0u8], x, seq![0u8], y);
        },
        _ => {},
    }
}

/// Whether the texts of a condition fit.
pub open spec fn condition_fits(c: ConditionView) -> bool {
    match c {
        ConditionView::Attribute { key, allowed_values } => fits(key) && layer_fits(
            Some(allowed_values),
        ),
        ConditionView::Predicate { expression_ref } => fits(expression_ref),
    }
}

proof fn lemma_condition_front(a: ConditionView, x: Seq<u8>, b: ConditionView, y: Seq<u8>)
    requires
        condition_fits(a),
        condition_fits(b),
        a.bytes() + x == b.bytes() + y,
    ensures
        a == b,
        x == y,
{
    assert((a.bytes() + x)[0] == a.bytes()[0]);
    assert((b.bytes() + y)[0] == b.bytes()[0]);
    match (a, b) {
        (
            ConditionView::Attribute { key: k, allowed_values: v },
            ConditionView::Attribute { key: l, allowed_values: w },
        ) => {
            let zero = seq![0u8];
            let p = text_field(k) + (layer_bytes(Some(v)) + x);
            let q = text_field(l) + (layer_bytes(Some(w)) + y);
            assert(a.bytes() + x =~= zero + p);
            assert(b.bytes() + y =~= zero + q);
            lemma_front(zero, p, zero, q);
            lemma_text_front(k, layer_bytes(Some(v)) + x, l, layer_bytes(Some(w)) + y);
            lemma_layer_front(Some(v), x, Some(w), y);
        },
        (
            ConditionView::Predicate { expression_ref: k },
            ConditionView::Predicate { expression_ref: l },
        ) => {
            let one = seq![1u8];
            assert(a.bytes() + x =~= one + (text_field(k) + x));
            assert(b.bytes() + y =~= one + (text_field(l) + y));
            lemma_front(one, text_field(k) + x, one, text_field(l) + y);
            lemma_text_front(k, x, l, y);
        },
        _ => {},
    }
}

proof fn lemma_conditions_front(
    a: Seq<ConditionView>,
    x: Seq<u8>,
    b: Seq<ConditionView>,
    y: Seq<u8>,
)
    requires
        forall|i: int| 0 <= i < a.len() ==> condition_fits(#[trigger] a[i]),
        forall|i: int| 0 <= i < b.len() ==> condition_fits(#[trigger] b[i]),
        a.len() == b.len(),
        condition_bytes(a) + x == condition_bytes(b) + y,
    ensures
        a == b,
        x == y,
    decreases a.len(),
{
    if a.len() == 0 {
        assert(condition_bytes(a) + x =~= x);
        assert(condition_bytes(b) + y =~= y);
        assert(a =~= b);
    } else {
        let s = a.drop_last();
        let t = b.drop_last();
        assert forall|i: int| 0 <= i < s.len() implies condition_fits(#[trigger] s[i]) by {
            assert(condition_fits(a[i]));
        }
        assert forall|i: int| 0 <= i < t.len() implies condition_fits(#[trigger] t[i]) by {
            assert(condition_fits(b[i]));
        }
        assert(condition_bytes(a) + x =~= condition_bytes(s) + (a.last().bytes() + x));
        assert(condition_bytes(b) + y =~= condition_bytes(t) + (b.last().bytes() + y));
        lemma_conditions_front(s, a.last().bytes() + x, t, b.last().bytes() + y);
        assert(condition_fits(a[a.len() - 1]) && condition_fits(b[b.len() - 1]));
        lemma_condition_front(a.last(), x, b.last(), y);
        assert(a =~= s.push(a.last()));
        assert(b =~= t.push(b.last()));
    }
}

/// Whether the texts of a scope fit, and the number of its conditions in four
/// bytes.
pub open spec fn scope_fits(s: ScopeView) -> bool {
    &&& layer_fits(s.authority)
    &&& layer_fits(s.profile_version)
    &&& layer_fits(s.product_group)
    &&& s.conditions.len() <= u32::MAX
    &&& forall|i: int| 0 <= i < s.conditions.len() ==> condition_fits(#[trigger] s.conditions[i])
}

/// The bytes of a scope tell all its layers, its window and its conditions.
pub proof fn scope_bytes_tell_the_scope(a: ScopeView, b: ScopeView)
    requires
        scope_fits(a),
        scope_fits(b),
        a.bytes() == b.bytes(),
    ensures
        a == b,
{
    let none = Seq::<u8>::empty();
    let p = if a.conditions.len() == 0 {
        none
    } else {
        spec_u32_to_le_bytes(a.conditions.len() as u32) + condition_bytes(a.conditions)
    };
    let q = if b.conditions.len() == 0 {
        none
    } else {
        spec_u32_to_le_bytes(b.conditions.len() as u32) + condition_bytes(b.conditions)
    };
    let a4 = a.window.bytes() + p;
    let b4 = b.window.bytes() + q;
    let a3 = layer_bytes(a.product_group) + a4;
    let b3 = layer_bytes(b.product_group) + b4;
    let a2 = layer_bytes(a.profile_version) + a3;
    let b2 = layer_bytes(b.profile_version) + b3;
    assert(a.bytes() =~= layer_bytes(a.authority) + a2);
    assert(b.bytes() =~= layer_bytes(b.authority) + b2);
    lemma_layer_front(a.authority, a2, b.authority, b2);
    lemma_layer_front(a.profile_version, a3, b.profile_version, b3);
    lemma_layer_front(a.product_group, a4, b.product_group, b4);
    lemma_window_front(a.window, p, b.window, q);
    vstd::bytes::lemma_auto_spec_u32_to_from_le_bytes();
    if a.conditions.len() == 0 {
        assert(b.conditions.len() == 0);
        assert(a.conditions =~= b.conditions);
    } else {
        assert(b.conditions.len() > 0);
        lemma_u32_front(
            a.conditions.len() as u32,
            condition_bytes(a.conditions),
            b.conditions.len() as u32,
            condition_bytes(b.conditions),
        );
        assert(condition_bytes(a.conditions) + none =~= condition_bytes(a.conditions));
        assert(condition_bytes(b.conditions) + none =~= condition_bytes(b.conditions));
        lemma_conditions_front(a.conditions, none, b.conditions, none);
    }
}

proof fn lemma_parts(a: Seq<Seq<u8>>, b: Seq<Seq<u8>>)
    requires
        fields(a) == fields(b),
        forall|i: int| 0 <= i < a.len() ==> (#[trigger] a[i]).len() <= u64::MAX,
        forall|i: int| 0 <= i < b.len() ==> (#[trigger] b[i]).len() <= u64::MAX,
    ensures
        a.len() == b.len(),
        forall|i: int| 0 <= i < a.len() ==> #[trigger] a[i] == b[i],
{
    crate::canon::fields_are_injective(a, b);
}

/// What the parent of a delegation signs tells the parent, the child and the
/// scope.
pub proof fn credential_bytes_tell_the_delegation(
    p1: Seq<char>,
    c1: Seq<char>,
    s1: ScopeView,
    p2: Seq<char>,
    c2: Seq<char>,
    s2: ScopeView,
)
    requires
        fits(p1) && fits(c1) && scope_fits(s1) && s1.bytes().len() <= u64::MAX,
        fits(p2) && fits(c2) && scope_fits(s2) && s2.bytes().len() <= u64::MAX,
        credential_bytes(p1, c1, s1) == credential_bytes(p2, c2, s2),
    ensures
        p1 == p2 && c1 == c2 && s1 == s2,
{
    let a = seq![utf8(p1), utf8(c1), s1.bytes()];
    let b = seq![utf8(p2), utf8(c2), s2.bytes()];
    lemma_parts(a, b);
    assert(a[0] == b[0] && a[1] == b[1] && a[2] == b[2]);
    texts_differ_in_bytes(p1, p2);
    texts_differ_in_bytes(c1, c2);
    scope_bytes_tell_the_scope(s1, s2);
}

/// What a witness signs tells the root and the moment.
pub proof fn witness_bytes_tell_the_root(n1: Seq<char>, t1: Timestamp, n2: Seq<char>, t2: Timestamp)
    requires
        fits(n1) && fits(n2),
        witness_bytes(n1, t1) == witness_bytes(n2, t2),
    ensures
        n1 == n2 && t1 == t2,
{
    vstd::bytes::lemma_auto_spec_u32_to_from_le_bytes();
    vstd::bytes::lemma_auto_spec_u64_to_from_le_bytes();
    let a = seq![utf8(n1), i64_bytes(t1.secs), spec_u32_to_le_bytes(t1.nanos)];
    let b = seq![utf8(n2), i64_bytes(t2.secs), spec_u32_to_le_bytes(t2.nanos)];
    lemma_parts(a, b);
    assert(a[0] == b[0] && a[1] == b[1] && a[2] == b[2]);
    texts_differ_in_bytes(n1, n2);
    lemma_i64(t1.secs, t2.secs);
}

proof fn lemma_four(
    a: Seq<u8>,
    b: Seq<u8>,
    c: Seq<u8>,
    d: Seq<u8>,
    w: Seq<u8>,
    x: Seq<u8>,
    y: Seq<u8>,
    z: Seq<u8>,
)
    requires
        a.len() <= u64::MAX && b.len() <= u64::MAX && c.len() <= u64::MAX && d.len() <= u64::MAX,
        w.len() <= u64::MAX && x.len() <= u64::MAX && y.len() <= u64::MAX && z.len() <= u64::MAX,
        fields(seq![a, b, c, d]) == fields(seq![w, x, y, z]),
    ensures
        a == w && b == x && c == y && d == z,
{
    let s = seq![a, b, c, d];
    let t = seq![w, x, y, z];
    lemma_parts(s, t);
    assert(s[0] == t[0] && s[1] == t[1] && s[2] == t[2] && s[3] == t[3]);
}

/// Different tiers have different tokens.
pub proof fn tiers_have_their_own_tokens(a: HierarchyTier, b: HierarchyTier)
    requires
        a.spec_token() == b.spec_token(),
    ensures
        a == b,
{
    reveal_strlit("root");
    reveal_strlit("issuing-authority");
    reveal_strlit("test-lab");
    reveal_strlit("manufacturer-model");
    reveal_strlit("instance");
    assert("root"@.len() == 4 && "issuing-authority"@.len() == 17);
    assert("manufacturer-model"@.len() == 18);
    assert("test-lab"@.len() == 8 && "instance"@.len() == 8);
    assert("test-lab"@[0] == 't' && "instance"@[0] == 'i');
    assert(a.spec_token().len() == b.spec_token().len());
    assert(a.spec_token()[0] == b.spec_token()[0]);
}

/// What the parent of a chain link signs tells both tiers, the child and the
/// scope.
pub proof fn link_bytes_tell_the_link(
    f1: HierarchyTier,
    t1: HierarchyTier,
    c1: Seq<char>,
    s1: ScopeView,
    f2: HierarchyTier,
    t2: HierarchyTier,
    c2: Seq<char>,
    s2: ScopeView,
)
    requires
        fits(c1) && scope_fits(s1) && s1.bytes().len() <= u64::MAX,
        fits(c2) && scope_fits(s2) && s2.bytes().len() <= u64::MAX,
        fits(f1.spec_token()) && fits(t1.spec_token()),
        fits(f2.spec_token()) && fits(t2.spec_token()),
        link_bytes(f1, t1, c1, s1) == link_bytes(f2, t2, c2, s2),
    ensures
        f1 == f2 && t1 == t2 && c1 == c2 && s1 == s2,
{
    lemma_four(
        utf8(f1.spec_token()),
        utf8(t1.spec_token()),
        utf8(c1),
        s1.bytes(),
        utf8(f2.spec_token()),
        utf8(t2.spec_token()),
        utf8(c2),
        s2.bytes(),
    );
    texts_differ_in_bytes(f1.spec_token(), f2.spec_token());
    texts_differ_in_bytes(t1.spec_token(), t2.spec_token());
    texts_differ_in_bytes(c1, c2);
    tiers_have_their_own_tokens(f1, f2);
    tiers_have_their_own_tokens(t1, t2);
    scope_bytes_tell_the_scope(s1, s2);
}

/// What a manufacturer signs tells the device, its key, the segment and the
/// commitment; what a slot's authority signs tells the device, the slot's key,
/// the segment, the start, and the end but for an empty one.
pub proof fn device_bytes_tell_the_device(
    d1: Seq<char>,
    k1: Seq<char>,
    g1: Seq<char>,
    h1: Seq<u8>,
    d2: Seq<char>,
    k2: Seq<char>,
    g2: Seq<char>,
    h2: Seq<u8>,
)
    requires
        fits(d1) && fits(k1) && fits(g1) && h1.len() <= u64::MAX,
        fits(d2) && fits(k2) && fits(g2) && h2.len() <= u64::MAX,
        certificate_bytes(d1, k1, g1, h1) == certificate_bytes(d2, k2, g2, h2),
    ensures
        d1 == d2 && k1 == k2 && g1 == g2 && h1 == h2,
{
    let a = seq![utf8(d1), utf8(k1), utf8(g1), h1];
    let b = seq![utf8(d2), utf8(k2), utf8(g2), h2];
    lemma_parts(a, b);
    assert(a[0] == b[0] && a[1] == b[1] && a[2] == b[2] && a[3] == b[3]);
    texts_differ_in_bytes(d1, d2);
    texts_differ_in_bytes(k1, k2);
    texts_differ_in_bytes(g1, g2);
}

/// What a slot's authority signs tells the device, the slot's key, the segment
/// and the start, and the end, where none and an empty one are the same.
pub proof fn slot_bytes_tell_the_slot(
    d1: Seq<char>,
    k1: Seq<char>,
    g1: Seq<char>,
    f1: Seq<char>,
    t1: Option<Seq<char>>,
    d2: Seq<char>,
    k2: Seq<char>,
    g2: Seq<char>,
    f2: Seq<char>,
    t2: Option<Seq<char>>,
)
    requires
        fits(d1) && fits(k1) && fits(g1) && fits(f1) && fits(text_or_nothing(t1)),
        fits(d2) && fits(k2) && fits(g2) && fits(f2) && fits(text_or_nothing(t2)),
        slot_bytes(d1, k1, g1, f1, t1) == slot_bytes(d2, k2, g2, f2, t2),
    ensures
        d1 == d2 && k1 == k2 && g1 == g2 && f1 == f2,
        t1 == t2 || ((t1 matches Some(t) ==> t.len() == 0) && (t2 matches Some(t) ==> t.len()
            == 0)),
{
    reveal_strlit("");
    let a = seq![utf8(d1), utf8(k1), utf8(g1), utf8(f1), utf8(text_or_nothing(t1))];
    let b = seq![utf8(d2), utf8(k2), utf8(g2), utf8(f2), utf8(text_or_nothing(t2))];
    lemma_parts(a, b);
    assert(a[0] == b[0] && a[1] == b[1] && a[2] == b[2] && a[3] == b[3] && a[4] == b[4]);
    texts_differ_in_bytes(d1, d2);
    texts_differ_in_bytes(k1, k2);
    texts_differ_in_bytes(g1, g2);
    texts_differ_in_bytes(f1, f2);
    texts_differ_in_bytes(text_or_nothing(t1), text_or_nothing(t2));
}

/// What a laboratory signs tells all that a calibration says, its end but for an
/// empty one.
pub proof fn calibration_bytes_tell_the_result(
    x1: Seq<Seq<char>>,
    t1: Option<Seq<char>>,
    x2: Seq<Seq<char>>,
    t2: Option<Seq<char>>,
)
    requires
        x1.len() == 7 && all_fit(x1) && fits(text_or_nothing(t1)),
        x2.len() == 7 && all_fit(x2) && fits(text_or_nothing(t2)),
        calibration_bytes(x1[0], x1[1], x1[2], x1[3], x1[4], x1[5], t1, x1[6])
            == calibration_bytes(x2[0], x2[1], x2[2], x2[3], x2[4], x2[5], t2, x2[6]),
    ensures
        x1 == x2,
        t1 == t2 || ((t1 matches Some(t) ==> t.len() == 0) && (t2 matches Some(t) ==> t.len()
            == 0)),
{
    reveal_strlit("");
    let a = seq![
        utf8(x1[0]),
        utf8(x1[1]),
        utf8(x1[2]),
        utf8(x1[3]),
        utf8(x1[4]),
        utf8(x1[5]),
        utf8(text_or_nothing(t1)),
        utf8(x1[6]),
    ];
    let b = seq![
        utf8(x2[0]),
        utf8(x2[1]),
        utf8(x2[2]),
        utf8(x2[3]),
        utf8(x2[4]),
        utf8(x2[5]),
        utf8(text_or_nothing(t2)),
        utf8(x2[6]),
    ];
    assert(fits(x1[0]) && fits(x1[1]) && fits(x1[2]) && fits(x1[3]) && fits(x1[4]) && fits(x1[5])
        && fits(x1[6]));
    assert(fits(x2[0]) && fits(x2[1]) && fits(x2[2]) && fits(x2[3]) && fits(x2[4]) && fits(x2[5])
        && fits(x2[6]));
    lemma_parts(a, b);
    assert(a[0] == b[0] && a[1] == b[1] && a[2] == b[2] && a[3] == b[3]);
    assert(a[4] == b[4] && a[5] == b[5] && a[6] == b[6] && a[7] == b[7]);
    assert forall|i: int| 0 <= i < 7 implies x1[i] == x2[i] by {
        texts_differ_in_bytes(x1[i], x2[i]);
    }
    assert(x1 =~= x2);
    texts_differ_in_bytes(text_or_nothing(t1), text_or_nothing(t2));
}

/// What an authority signs tells whom it accredits, itself, the version, the
/// sorted lists, the start, and the end but for an empty one.
pub proof fn grant_bytes_tell_the_grant(
    p1: Seq<char>,
    a1: Seq<char>,
    v1: u64,
    s1: Seq<Seq<char>>,
    c1: Seq<Seq<char>>,
    f1: Seq<char>,
    t1: Option<Seq<char>>,
    p2: Seq<char>,
    a2: Seq<char>,
    v2: u64,
    s2: Seq<Seq<char>>,
    c2: Seq<Seq<char>>,
    f2: Seq<char>,
    t2: Option<Seq<char>>,
)
    requires
        fits(p1) && fits(a1) && fits(f1) && fits(text_or_nothing(t1)),
        fits(p2) && fits(a2) && fits(f2) && fits(text_or_nothing(t2)),
        sorted_bytes(s1).len() <= u64::MAX && sorted_bytes(c1).len() <= u64::MAX,
        sorted_bytes(s2).len() <= u64::MAX && sorted_bytes(c2).len() <= u64::MAX,
        grant_bytes(p1, a1, v1, s1, c1, f1, t1) == grant_bytes(p2, a2, v2, s2, c2, f2, t2),
    ensures
        p1 == p2 && a1 == a2 && v1 == v2 && f1 == f2,
        sorted_bytes(s1) == sorted_bytes(s2) && sorted_bytes(c1) == sorted_bytes(c2),
        t1 == t2 || ((t1 matches Some(t) ==> t.len() == 0) && (t2 matches Some(t) ==> t.len()
            == 0)),
{
    reveal_strlit("");
    vstd::bytes::lemma_auto_spec_u64_to_from_le_bytes();
    let a = seq![
        utf8(p1),
        utf8(a1),
        spec_u64_to_le_bytes(v1),
        sorted_bytes(s1),
        sorted_bytes(c1),
        utf8(f1),
        utf8(text_or_nothing(t1)),
    ];
    let b = seq![
        utf8(p2),
        utf8(a2),
        spec_u64_to_le_bytes(v2),
        sorted_bytes(s2),
        sorted_bytes(c2),
        utf8(f2),
        utf8(text_or_nothing(t2)),
    ];
    lemma_parts(a, b);
    assert(a[0] == b[0] && a[1] == b[1] && a[2] == b[2] && a[3] == b[3]);
    assert(a[4] == b[4] && a[5] == b[5] && a[6] == b[6]);
    texts_differ_in_bytes(p1, p2);
    texts_differ_in_bytes(a1, a2);
    texts_differ_in_bytes(f1, f2);
    texts_differ_in_bytes(text_or_nothing(t1), text_or_nothing(t2));
}

proof fn lemma_assoc(a: Seq<u8>, b: Seq<u8>, c: Seq<u8>)
    ensures
        (a + b) + c == a + (b + c),
{
    assert((a + b) + c =~= a + (b + c));
}

proof fn lemma_eleven(
    a0: Seq<u8>,
    a1: Seq<u8>,
    a2: Seq<u8>,
    a3: Seq<u8>,
    a4: Seq<u8>,
    a5: Seq<u8>,
    a6: Seq<u8>,
    a7: Seq<u8>,
    a8: Seq<u8>,
    a9: Seq<u8>,
    a10: Seq<u8>,
)
    ensures
        a0 + a1 + a2 + a3 + a4 + a5 + a6 + a7 + a8 + a9 + a10 == a0 + (a1 + (a2 + (a3 + (a4 + (a5 + (a6 + (a7 + (a8 + (a9 + (a10 + Seq::<u8>::empty())))))))))),
{
    let e = Seq::<u8>::empty();
    let r10 = a10 + e;
    let r9 = a9 + r10;
    let r8 = a8 + r9;
    let r7 = a7 + r8;
    let r6 = a6 + r7;
    let r5 = a5 + r6;
    let r4 = a4 + r5;
    let r3 = a3 + r4;
    let r2 = a2 + r3;
    let r1 = a1 + r2;
    let l1 = a0;
    let l2 = l1 + a1;
    let l3 = l2 + a2;
    let l4 = l3 + a3;
    let l5 = l4 + a4;
    let l6 = l5 + a5;
    let l7 = l6 + a6;
    let l8 = l7 + a7;
    let l9 = l8 + a8;
    let l10 = l9 + a9;
    assert(l10 + a10 =~= l10 + r10);
    lemma_assoc(l9, a9, r10);
    lemma_assoc(l8, a8, r9);
    lemma_assoc(l7, a7, r8);
    lemma_assoc(l6, a6, r7);
    lemma_assoc(l5, a5, r6);
    lemma_assoc(l4, a4, r5);
    lemma_assoc(l3, a3, r4);
    lemma_assoc(l2, a2, r3);
    lemma_assoc(l1, a1, r2);
}

proof fn lemma_head(
    a: Seq<u8>,
    b: Seq<u8>,
    c: Seq<u8>,
    d: Seq<u8>,
    e: Seq<u8>,
    f: Seq<u8>,
) -> (rest: Seq<u8>)
    ensures
        a + b + c + d + e + f == a + (b + (c + rest)),
{
    let rest = d + (e + f);
    lemma_assoc(a + b + c + d, e, f);
    lemma_assoc(a + b + c, d, e + f);
    lemma_assoc(a + b, c, rest);
    lemma_assoc(a, b, c + rest);
    rest
}

/// What a declarer signs tells the declarer, the counterpart and the version.
pub proof fn declaration_bytes_tell_the_parties(
    d1: Seq<char>,
    c1: Seq<char>,
    v1: u64,
    p1: Seq<PostureView>,
    f1: Seq<char>,
    t1: Option<Seq<char>>,
    d2: Seq<char>,
    c2: Seq<char>,
    v2: u64,
    p2: Seq<PostureView>,
    f2: Seq<char>,
    t2: Option<Seq<char>>,
)
    requires
        fits(d1) && fits(c1) && fits(d2) && fits(c2),
        declaration_bytes(d1, c1, v1, p1, f1, t1) == declaration_bytes(d2, c2, v2, p2, f2, t2),
    ensures
        d1 == d2 && c1 == c2 && v1 == v2,
{
    vstd::bytes::lemma_auto_spec_u64_to_from_le_bytes();
    let m = spec_u64_to_le_bytes(v1);
    let n = spec_u64_to_le_bytes(v2);
    let x = lemma_head(
        text_field(d1),
        text_field(c1),
        field(m),
        crate::declaration::posture_bytes(crate::declaration::sorted_postures(p1)),
        text_field(f1),
        text_field(text_or_nothing(t1)),
    );
    let y = lemma_head(
        text_field(d2),
        text_field(c2),
        field(n),
        crate::declaration::posture_bytes(crate::declaration::sorted_postures(p2)),
        text_field(f2),
        text_field(text_or_nothing(t2)),
    );
    lemma_text_front(
        d1,
        text_field(c1) + (field(m) + x),
        d2,
        text_field(c2) + (field(n) + y),
    );
    lemma_text_front(c1, field(m) + x, c2, field(n) + y);
    crate::canon::lemma_split_field(m, x);
    crate::canon::lemma_split_field(n, y);
}

/// Different reveal classes, claims and outcomes have different tokens.
pub proof fn classes_have_their_own_tokens(
    r1: RevealClass,
    r2: RevealClass,
    c1: ClaimClass,
    c2: ClaimClass,
    o1: S13Outcome,
    o2: S13Outcome,
)
    ensures
        r1.spec_token() == r2.spec_token() ==> r1 == r2,
        c1.spec_token() == c2.spec_token() ==> c1 == c2,
        o1.spec_token() == o2.spec_token() ==> o1 == o2,
{
    reveal_strlit("open");
    reveal_strlit("pairing-gated");
    reveal_strlit("origin-sealed");
    reveal_strlit("escrowed");
    reveal_strlit("conformity");
    reveal_strlit("commitment-hash");
    reveal_strlit("freshness");
    reveal_strlit("permit");
    reveal_strlit("permit-paired");
    reveal_strlit("attestation-offer");
    reveal_strlit("escalation");
    reveal_strlit("deny");
    if r1.spec_token() == r2.spec_token() {
        assert(r1.spec_token().len() == r2.spec_token().len());
        assert(r1.spec_token()[0] == r2.spec_token()[0]);
    }
    if c1.spec_token() == c2.spec_token() {
        assert(c1.spec_token().len() == c2.spec_token().len());
    }
    if o1.spec_token() == o2.spec_token() {
        assert(o1.spec_token().len() == o2.spec_token().len());
    }
}

/// Whether the texts of a policy fit.
pub open spec fn policy_fits(p: PolicyObject) -> bool {
    fits(p.policy_id@) && fits(p.authority@) && all_fit(texts(p.readers@)) && all_fit(
        texts(p.verifiers@),
    ) && all_fit(texts(p.writers@)) && fits(p.reveal.spec_token()) && all_fit(texts(p.suites@))
        && fits(p.valid_from@) && option_fits(option_text(p.valid_to))
}

/// What a policy's authority signs tells everything that the policy says.
pub proof fn policy_bytes_tell_the_policy(p: PolicyObject, q: PolicyObject)
    requires
        policy_fits(p),
        policy_fits(q),
        p.bytes() == q.bytes(),
    ensures
        p.policy_id@ == q.policy_id@,
        p.version == q.version,
        p.authority@ == q.authority@,
        texts(p.readers@) == texts(q.readers@),
        texts(p.verifiers@) == texts(q.verifiers@),
        texts(p.writers@) == texts(q.writers@),
        p.reveal == q.reveal,
        texts(p.suites@) == texts(q.suites@),
        p.valid_from@ == q.valid_from@,
        option_text(p.valid_to) == option_text(q.valid_to),
        p.superseded_by == q.superseded_by,
{
    let none = Seq::<u8>::empty();
    let p10 = option_number_bytes(p.superseded_by) + none;
    let q10 = option_number_bytes(q.superseded_by) + none;
    let p9 = option_bytes(option_text(p.valid_to)) + p10;
    let q9 = option_bytes(option_text(q.valid_to)) + q10;
    let p8 = text_field(p.valid_from@) + p9;
    let q8 = text_field(q.valid_from@) + q9;
    let p7 = list_bytes(texts(p.suites@)) + p8;
    let q7 = list_bytes(texts(q.suites@)) + q8;
    let p6 = text_field(p.reveal.spec_token()) + p7;
    let q6 = text_field(q.reveal.spec_token()) + q7;
    let p5 = list_bytes(texts(p.writers@)) + p6;
    let q5 = list_bytes(texts(q.writers@)) + q6;
    let p4 = list_bytes(texts(p.verifiers@)) + p5;
    let q4 = list_bytes(texts(q.verifiers@)) + q5;
    let p3 = list_bytes(texts(p.readers@)) + p4;
    let q3 = list_bytes(texts(q.readers@)) + q4;
    let p2 = text_field(p.authority@) + p3;
    let q2 = text_field(q.authority@) + q3;
    let p1 = spec_u64_to_le_bytes(p.version) + p2;
    let q1 = spec_u64_to_le_bytes(q.version) + q2;
    lemma_eleven(
        text_field(p.policy_id@),
        spec_u64_to_le_bytes(p.version),
        text_field(p.authority@),
        list_bytes(texts(p.readers@)),
        list_bytes(texts(p.verifiers@)),
        list_bytes(texts(p.writers@)),
        text_field(p.reveal.spec_token()),
        list_bytes(texts(p.suites@)),
        text_field(p.valid_from@),
        option_bytes(option_text(p.valid_to)),
        option_number_bytes(p.superseded_by),
    );
    lemma_eleven(
        text_field(q.policy_id@),
        spec_u64_to_le_bytes(q.version),
        text_field(q.authority@),
        list_bytes(texts(q.readers@)),
        list_bytes(texts(q.verifiers@)),
        list_bytes(texts(q.writers@)),
        text_field(q.reveal.spec_token()),
        list_bytes(texts(q.suites@)),
        text_field(q.valid_from@),
        option_bytes(option_text(q.valid_to)),
        option_number_bytes(q.superseded_by),
    );
    assert(p.bytes() == text_field(p.policy_id@) + p1);
    assert(q.bytes() == text_field(q.policy_id@) + q1);
    lemma_text_front(p.policy_id@, p1, q.policy_id@, q1);
    lemma_u64_front(p.version, p2, q.version, q2);
    lemma_text_front(p.authority@, p3, q.authority@, q3);
    lemma_list_front(texts(p.readers@), p4, texts(q.readers@), q4);
    lemma_list_front(texts(p.verifiers@), p5, texts(q.verifiers@), q5);
    lemma_list_front(texts(p.writers@), p6, texts(q.writers@), q6);
    lemma_text_front(p.reveal.spec_token(), p7, q.reveal.spec_token(), q7);
    lemma_list_front(texts(p.suites@), p8, texts(q.suites@), q8);
    lemma_text_front(p.valid_from@, p9, q.valid_from@, q9);
    lemma_option_front(option_text(p.valid_to), p10, option_text(q.valid_to), q10);
    lemma_option_number_front(p.superseded_by, none, q.superseded_by, none);
    classes_have_their_own_tokens(
        p.reveal,
        q.reveal,
        ClaimClass::Conformity,
        ClaimClass::Conformity,
        S13Outcome::Deny,
        S13Outcome::Deny,
    );
}

/// Whether the texts of a statement fit.
pub open spec fn statement_fits(s: AttestationStatement) -> bool {
    fits(s.segment@) && s.state_commitment@.len() <= u64::MAX && fits(s.claim.spec_token()) && fits(
        s.value@,
    ) && fits(s.as_of@) && fits(s.governing_policy@) && fits(s.subject@)
}

/// What a service attests to tells everything that the statement says.
pub proof fn statement_bytes_tell_the_statement(s: AttestationStatement, t: AttestationStatement)
    requires
        statement_fits(s),
        statement_fits(t),
        s.bytes() == t.bytes(),
    ensures
        s.segment@ == t.segment@,
        s.state_commitment@ == t.state_commitment@,
        s.claim == t.claim,
        s.value@ == t.value@,
        s.as_of@ == t.as_of@,
        s.governing_policy@ == t.governing_policy@,
        s.governing_policy_version == t.governing_policy_version,
        s.subject@ == t.subject@,
{
    vstd::bytes::lemma_auto_spec_u64_to_from_le_bytes();
    let a = seq![
        utf8(s.segment@),
        s.state_commitment@,
        utf8(s.claim.spec_token()),
        utf8(s.value@),
        utf8(s.as_of@),
        utf8(s.governing_policy@),
        spec_u64_to_le_bytes(s.governing_policy_version),
        utf8(s.subject@),
    ];
    let b = seq![
        utf8(t.segment@),
        t.state_commitment@,
        utf8(t.claim.spec_token()),
        utf8(t.value@),
        utf8(t.as_of@),
        utf8(t.governing_policy@),
        spec_u64_to_le_bytes(t.governing_policy_version),
        utf8(t.subject@),
    ];
    lemma_parts(a, b);
    assert(a[0] == b[0] && a[1] == b[1] && a[2] == b[2] && a[3] == b[3]);
    assert(a[4] == b[4] && a[5] == b[5] && a[6] == b[6] && a[7] == b[7]);
    texts_differ_in_bytes(s.segment@, t.segment@);
    texts_differ_in_bytes(s.claim.spec_token(), t.claim.spec_token());
    texts_differ_in_bytes(s.value@, t.value@);
    texts_differ_in_bytes(s.as_of@, t.as_of@);
    texts_differ_in_bytes(s.governing_policy@, t.governing_policy@);
    texts_differ_in_bytes(s.subject@, t.subject@);
    classes_have_their_own_tokens(
        RevealClass::Open,
        RevealClass::Open,
        s.claim,
        t.claim,
        S13Outcome::Deny,
        S13Outcome::Deny,
    );
}

/// What a verifier signs tells everything that the question says.
pub proof fn question_bytes_tell_the_question(p: S13Request, q: S13Request)
    requires
        fits(p.verifier@) && fits(p.subject@) && fits(p.profile@) && fits(p.segment@) && fits(p.at@),
        fits(q.verifier@) && fits(q.subject@) && fits(q.profile@) && fits(q.segment@) && fits(q.at@),
        p.bytes() == q.bytes(),
    ensures
        p.verifier@ == q.verifier@,
        p.subject@ == q.subject@,
        p.profile@ == q.profile@,
        p.segment@ == q.segment@,
        p.at@ == q.at@,
{
    let a = seq![
        utf8(p.verifier@),
        utf8(p.subject@),
        utf8(p.profile@),
        utf8(p.segment@),
        utf8(p.at@),
    ];
    let b = seq![
        utf8(q.verifier@),
        utf8(q.subject@),
        utf8(q.profile@),
        utf8(q.segment@),
        utf8(q.at@),
    ];
    lemma_parts(a, b);
    assert(a[0] == b[0] && a[1] == b[1] && a[2] == b[2] && a[3] == b[3] && a[4] == b[4]);
    texts_differ_in_bytes(p.verifier@, q.verifier@);
    texts_differ_in_bytes(p.subject@, q.subject@);
    texts_differ_in_bytes(p.profile@, q.profile@);
    texts_differ_in_bytes(p.segment@, q.segment@);
    texts_differ_in_bytes(p.at@, q.at@);
}

/// What a custodian signs tells everything that the answer says.
pub proof fn answer_bytes_tell_the_answer(p: S13Response, q: S13Response)
    requires
        fits(p.custodian@) && fits(p.outcome.spec_token()) && fits(p.governing_policy@),
        fits(q.custodian@) && fits(q.outcome.spec_token()) && fits(q.governing_policy@),
        p.bytes() == q.bytes(),
    ensures
        p.request_digest@ == q.request_digest@,
        p.custodian@ == q.custodian@,
        p.outcome == q.outcome,
        p.governing_policy@ == q.governing_policy@,
        p.governing_policy_version == q.governing_policy_version,
{
    vstd::bytes::lemma_auto_spec_u64_to_from_le_bytes();
    let a = seq![
        p.request_digest@,
        utf8(p.custodian@),
        utf8(p.outcome.spec_token()),
        utf8(p.governing_policy@),
        spec_u64_to_le_bytes(p.governing_policy_version),
    ];
    let b = seq![
        q.request_digest@,
        utf8(q.custodian@),
        utf8(q.outcome.spec_token()),
        utf8(q.governing_policy@),
        spec_u64_to_le_bytes(q.governing_policy_version),
    ];
    lemma_parts(a, b);
    assert(a[0] == b[0] && a[1] == b[1] && a[2] == b[2] && a[3] == b[3] && a[4] == b[4]);
    texts_differ_in_bytes(p.custodian@, q.custodian@);
    texts_differ_in_bytes(p.outcome.spec_token(), q.outcome.spec_token());
    texts_differ_in_bytes(p.governing_policy@, q.governing_policy@);
    classes_have_their_own_tokens(
        RevealClass::Open,
        RevealClass::Open,
        ClaimClass::Conformity,
        ClaimClass::Conformity,
        p.outcome,
        q.outcome,
    );
}

/// What an authority countersigns tells the digest of the answer, its place, and
/// the policy in its version.
pub proof fn countersignatures_tell_the_place(p: S13Response, m: u64, q: S13Response, n: u64)
    requires
        fits(p.governing_policy@) && sha256_of(p.bytes()).len() <= u64::MAX,
        fits(q.governing_policy@) && sha256_of(q.bytes()).len() <= u64::MAX,
        authority_payload(p, m) == authority_payload(q, n),
    ensures
        sha256_of(p.bytes()) == sha256_of(q.bytes()),
        m == n,
        p.governing_policy@ == q.governing_policy@,
        p.governing_policy_version == q.governing_policy_version,
{
    vstd::bytes::lemma_auto_spec_u64_to_from_le_bytes();
    let a = seq![
        p.spec_digest(),
        spec_u64_to_le_bytes(m),
        utf8(p.governing_policy@),
        spec_u64_to_le_bytes(p.governing_policy_version),
    ];
    let b = seq![
        q.spec_digest(),
        spec_u64_to_le_bytes(n),
        utf8(q.governing_policy@),
        spec_u64_to_le_bytes(q.governing_policy_version),
    ];
    lemma_parts(a, b);
    assert(a[0] == b[0] && a[1] == b[1] && a[2] == b[2] && a[3] == b[3]);
    texts_differ_in_bytes(p.governing_policy@, q.governing_policy@);
}

/// What a hub signs tells the hub, the digest of the evidence, both ends and the
/// class.
pub proof fn relay_bytes_tell_the_relay(
    h1: Seq<char>,
    e1: Seq<u8>,
    f1: Seq<char>,
    t1: Seq<char>,
    c1: Seq<char>,
    h2: Seq<char>,
    e2: Seq<u8>,
    f2: Seq<char>,
    t2: Seq<char>,
    c2: Seq<char>,
)
    requires
        fits(h1) && fits(f1) && fits(t1) && fits(c1) && sha256_of(e1).len() <= u64::MAX,
        fits(h2) && fits(f2) && fits(t2) && fits(c2) && sha256_of(e2).len() <= u64::MAX,
        relay_bytes(h1, e1, f1, t1, c1) == relay_bytes(h2, e2, f2, t2, c2),
    ensures
        h1 == h2 && f1 == f2 && t1 == t2 && c1 == c2,
        e1 == e2 || collide(e1, e2),
{
    let a = seq![utf8(h1), sha256_of(e1), utf8(f1), utf8(t1), utf8(c1)];
    let b = seq![utf8(h2), sha256_of(e2), utf8(f2), utf8(t2), utf8(c2)];
    lemma_parts(a, b);
    assert(a[0] == b[0] && a[1] == b[1] && a[2] == b[2] && a[3] == b[3] && a[4] == b[4]);
    texts_differ_in_bytes(h1, h2);
    texts_differ_in_bytes(f1, f2);
    texts_differ_in_bytes(t1, t2);
    texts_differ_in_bytes(c1, c2);
}

/// What an operator signs of a tree tells the log, the size, the moment and the
/// root.
pub proof fn tree_head_bytes_tell_the_head(a: SignedTreeHead, b: SignedTreeHead)
    requires
        fits(a.log_id@) && fits(b.log_id@),
        a.bytes() == b.bytes(),
    ensures
        a.log_id@ == b.log_id@,
        a.tree_size == b.tree_size,
        a.timestamp == b.timestamp,
        a.root@ == b.root@,
{
    let a3 = spec_u32_to_le_bytes(a.timestamp.nanos) + a.root@;
    let b3 = spec_u32_to_le_bytes(b.timestamp.nanos) + b.root@;
    let a2 = i64_bytes(a.timestamp.secs) + a3;
    let b2 = i64_bytes(b.timestamp.secs) + b3;
    let a1 = spec_u64_to_le_bytes(a.tree_size) + a2;
    let b1 = spec_u64_to_le_bytes(b.tree_size) + b2;
    assert(a.bytes() =~= text_field(a.log_id@) + a1);
    assert(b.bytes() =~= text_field(b.log_id@) + b1);
    lemma_text_front(a.log_id@, a1, b.log_id@, b1);
    lemma_u64_front(a.tree_size, a2, b.tree_size, b2);
    lemma_i64_front(a.timestamp.secs, a3, b.timestamp.secs, b3);
    lemma_u32_front(a.timestamp.nanos, a.root@, b.timestamp.nanos, b.root@);
}

/// What an attester signs of a roll-up tells everything that it says but the
/// signature.
pub proof fn rollup_bodies_tell_the_rollup(a: RollupAttestation, b: RollupAttestation)
    requires
        fits(a.subject@) && all_fit(texts(a.aggregates@)) && fits(a.method_ref@) && fits(
            a.attester@,
        ),
        fits(b.subject@) && all_fit(texts(b.aggregates@)) && fits(b.method_ref@) && fits(
            b.attester@,
        ),
        a.body() == b.body(),
    ensures
        a.subject@ == b.subject@,
        a.set_root@ == b.set_root@,
        texts(a.aggregates@) == texts(b.aggregates@),
        a.method_ref@ == b.method_ref@,
        a.attester@ == b.attester@,
{
    let none = Seq::<u8>::empty();
    let a4 = text_field(a.attester@) + none;
    let b4 = text_field(b.attester@) + none;
    let a3 = text_field(a.method_ref@) + a4;
    let b3 = text_field(b.method_ref@) + b4;
    let a2 = list_bytes(texts(a.aggregates@)) + a3;
    let b2 = list_bytes(texts(b.aggregates@)) + b3;
    let a1 = a.set_root@ + a2;
    let b1 = b.set_root@ + b2;
    assert(a.body() =~= text_field(a.subject@) + a1);
    assert(b.body() =~= text_field(b.subject@) + b1);
    lemma_text_front(a.subject@, a1, b.subject@, b1);
    lemma_front(a.set_root@, a2, b.set_root@, b2);
    lemma_list_front(texts(a.aggregates@), a3, texts(b.aggregates@), b3);
    lemma_text_front(a.method_ref@, a4, b.method_ref@, b4);
    lemma_text_front(a.attester@, none, b.attester@, none);
}

/// What a notary signs tells the passport, the moment and the state.
pub proof fn stamps_tell_the_state(
    s1: Seq<char>,
    t1: Timestamp,
    h1: Seq<u8>,
    s2: Seq<char>,
    t2: Timestamp,
    h2: Seq<u8>,
)
    requires
        fits(s1) && fits(s2),
        stamp(s1, t1, h1) == stamp(s2, t2, h2),
    ensures
        s1 == s2 && t1 == t2 && h1 == h2,
{
    let a2 = spec_u32_to_le_bytes(t1.nanos) + h1;
    let b2 = spec_u32_to_le_bytes(t2.nanos) + h2;
    let a1 = i64_bytes(t1.secs) + a2;
    let b1 = i64_bytes(t2.secs) + b2;
    assert(stamp(s1, t1, h1) =~= text_field(s1) + a1);
    assert(stamp(s2, t2, h2) =~= text_field(s2) + b1);
    lemma_text_front(s1, a1, s2, b1);
    lemma_i64_front(t1.secs, a2, t2.secs, b2);
    lemma_u32_front(t1.nanos, h1, t2.nanos, h2);
}

/// The entries of two segments in a spine are the same only for the same segment
/// with the same commitment, unless the hash collides.
pub proof fn segment_entries_tell_the_segment(
    i1: Seq<char>,
    c1: Seq<u8>,
    i2: Seq<char>,
    c2: Seq<u8>,
)
    requires
        fits(i1) && fits(i2),
        segment_entry(i1, c1) == segment_entry(i2, c2),
    ensures
        (i1 == i2 && c1 == c2) || collide(text_field(i1) + c1, text_field(i2) + c2),
{
    if text_field(i1) + c1 == text_field(i2) + c2 {
        lemma_text_front(i1, c1, i2, c2);
    }
}

/// A commitment to a prefix of a device's log is met by one prefix only, unless
/// the hash collides.
pub proof fn commitments_bind_the_prefix(
    c: EdgeCommitment,
    m: u64,
    s: Seq<u8>,
    n: u64,
    t: Seq<u8>,
)
    requires
        s.len() <= u64::MAX && t.len() <= u64::MAX,
        c.matches(m, s),
        c.matches(n, t),
    ensures
        (m == n && s == t) || collide(prefix_bytes(m, s), prefix_bytes(n, t)),
{
    vstd::bytes::lemma_auto_spec_u64_to_from_le_bytes();
    if prefix_bytes(m, s) == prefix_bytes(n, t) {
        let a = seq![spec_u64_to_le_bytes(m), s];
        let b = seq![spec_u64_to_le_bytes(n), t];
        lemma_parts(a, b);
        assert(a[0] == b[0] && a[1] == b[1]);
    }
}

/// What the members of a quorum sign tells the quorum, the threshold and the
/// statement.
pub proof fn quorum_bytes_tell_the_statement(
    s1: Seq<u8>,
    q1: Seq<char>,
    t1: usize,
    s2: Seq<u8>,
    q2: Seq<char>,
    t2: usize,
)
    requires
        fits(q1) && fits(q2) && t1 <= u32::MAX && t2 <= u32::MAX,
        quorum_bytes(s1, q1, t1) == quorum_bytes(s2, q2, t2),
    ensures
        s1 == s2 && q1 == q2 && t1 == t2,
{
    let one = seq![utf8(q1)];
    let two = seq![utf8(q2)];
    assert(one.drop_last() =~= Seq::<Seq<u8>>::empty());
    assert(two.drop_last() =~= Seq::<Seq<u8>>::empty());
    reveal_with_fuel(fields, 2);
    assert(fields(one) =~= text_field(q1));
    assert(fields(two) =~= text_field(q2));
    let x = spec_u32_to_le_bytes(t1 as u32) + s1;
    let y = spec_u32_to_le_bytes(t2 as u32) + s2;
    assert(quorum_bytes(s1, q1, t1) =~= text_field(q1) + x);
    assert(quorum_bytes(s2, q2, t2) =~= text_field(q2) + y);
    lemma_text_front(q1, x, q2, y);
    lemma_u32_front(t1 as u32, s1, t2 as u32, s2);
}

/// Different subjects have different labels.
pub proof fn subjects_have_their_own_labels(a: SubjectView, b: SubjectView)
    requires
        a.label() == b.label(),
    ensures
        a == b,
{
    reveal_strlit("key:");
    reveal_strlit("node:");
    reveal_strlit("passport:");
    assert("key:"@[0] == 'k' && "node:"@[0] == 'n' && "passport:"@[0] == 'p');
    assert(a.label()[0] == b.label()[0]);
    assert(a.label()[0] == match a {
        SubjectView::Key(_) => 'k',
        SubjectView::Node(_) => 'n',
        SubjectView::Passport(_) => 'p',
    });
    assert(b.label()[0] == match b {
        SubjectView::Key(_) => 'k',
        SubjectView::Node(_) => 'n',
        SubjectView::Passport(_) => 'p',
    });
    match (a, b) {
        (SubjectView::Key(x), SubjectView::Key(y)) => {
            assert(x =~= a.label().skip(4));
            assert(y =~= b.label().skip(4));
        },
        (SubjectView::Node(x), SubjectView::Node(y)) => {
            assert(x =~= a.label().skip(5));
            assert(y =~= b.label().skip(5));
        },
        (SubjectView::Passport(x), SubjectView::Passport(y)) => {
            assert(x =~= a.label().skip(9));
            assert(y =~= b.label().skip(9));
        },
        _ => {},
    }
}

/// Whether two reasons are of the same kind.
pub open spec fn same_kind(a: ReasonView, b: ReasonView) -> bool {
    &&& a is KeyCompromise == b is KeyCompromise
    &&& a is Cessation == b is Cessation
    &&& a is Supersession == b is Supersession
    &&& a is AffiliationChange == b is AffiliationChange
    &&& a is Misissuance == b is Misissuance
    &&& a is FraudulentIssuance == b is FraudulentIssuance
    &&& a is AuthorityCompromised == b is AuthorityCompromised
}

/// Reasons of different kinds have different tokens.
pub proof fn reasons_have_their_own_tokens(a: ReasonView, b: ReasonView)
    ensures
        a.token() == b.token() <==> same_kind(a, b),
{
    reveal_strlit("key-compromise");
    reveal_strlit("cessation");
    reveal_strlit("supersession");
    reveal_strlit("affiliation-change");
    reveal_strlit("misissuance");
    reveal_strlit("fraudulent-issuance");
    reveal_strlit("authority-compromised");
    if a.token() == b.token() {
        assert(a.token().len() == b.token().len());
        assert(a.token()[0] == b.token()[0]);
    }
}

/// What the quorum of a declaration of distrust attests to tells the subject,
/// the kind of the reason, the declarer, and the seconds between which it acts.
pub proof fn statements_tell_the_declaration(a: RevocationView, b: RevocationView)
    requires
        fits(a.subject.label()) && fits(a.reason.token()) && fits(a.declared_by),
        fits(b.subject.label()) && fits(b.reason.token()) && fits(b.declared_by),
        a.statement() == b.statement(),
    ensures
        a.subject == b.subject,
        same_kind(a.reason, b.reason),
        a.declared_by == b.declared_by,
        a.window.from.secs == b.window.from.secs,
        a.window.to matches Some(s) ==> (b.window.to matches Some(t) ==> s.secs == t.secs),
        a.window.to is None ==> (b.window.to matches Some(t) ==> t.secs == i64::MAX),
{
    vstd::bytes::lemma_auto_spec_u64_to_from_le_bytes();
    let x = seq![
        utf8(a.subject.label()),
        utf8(a.reason.token()),
        utf8(a.declared_by),
        i64_bytes(a.window.from.secs),
        i64_bytes(a.end_secs()),
    ];
    let y = seq![
        utf8(b.subject.label()),
        utf8(b.reason.token()),
        utf8(b.declared_by),
        i64_bytes(b.window.from.secs),
        i64_bytes(b.end_secs()),
    ];
    lemma_parts(x, y);
    assert(x[0] == y[0] && x[1] == y[1] && x[2] == y[2] && x[3] == y[3] && x[4] == y[4]);
    texts_differ_in_bytes(a.subject.label(), b.subject.label());
    texts_differ_in_bytes(a.reason.token(), b.reason.token());
    texts_differ_in_bytes(a.declared_by, b.declared_by);
    lemma_i64(a.window.from.secs, b.window.from.secs);
    lemma_i64(a.end_secs(), b.end_secs());
    subjects_have_their_own_labels(a.subject, b.subject);
    reasons_have_their_own_tokens(a.reason, b.reason);
}

} // verus!
