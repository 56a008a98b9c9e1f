//! JSON texts: the members of objects, single values and strings.

use serde_json::Value;
use vstd::prelude::*;

use crate::bytes::utf8;
use crate::text::decimal;

verus! {

/// An item of a JSON array.
#[derive(Debug, PartialEq, Eq)]
pub enum JsonItem {
    /// A number that fits.
    Number(u64),
    /// A string.
    Text(String),
    /// Anything else.
    Other,
}

/// A member of a JSON object.
#[derive(Debug, PartialEq, Eq)]
pub enum JsonMember {
    /// A number that fits.
    Number(u64),
    /// A string.
    Text(String),
    /// An array.
    List(Vec<JsonItem>),
    /// Anything else, or nothing.
    Other,
}

/// An item as a mathematical value.
#[verifier::ext_equal]
pub enum ItemView {
    /// See [`JsonItem::Number`].
    Number(u64),
    /// See [`JsonItem::Text`].
    Text(Seq<char>),
    /// See [`JsonItem::Other`].
    Other,
}

/// A member as a mathematical value.
#[verifier::ext_equal]
pub enum MemberView {
    /// See [`JsonMember::Number`].
    Number(u64),
    /// See [`JsonMember::Text`].
    Text(Seq<char>),
    /// See [`JsonMember::List`].
    List(Seq<ItemView>),
    /// See [`JsonMember::Other`].
    Other,
}

impl View for JsonItem {
    type V = ItemView;

    open spec fn view(&self) -> ItemView {
        match self {
            JsonItem::Number(n) => ItemView::Number(*n),
            JsonItem::Text(t) => ItemView::Text(t@),
            JsonItem::Other => ItemView::Other,
        }
    }
}

/// The items of a list as mathematical values.
pub open spec fn item_views(s: Seq<JsonItem>) -> Seq<ItemView> {
    s.map_values(|x: JsonItem| x@)
}

impl View for JsonMember {
    type V = MemberView;

    open spec fn view(&self) -> MemberView {
        match self {
            JsonMember::Number(n) => MemberView::Number(*n),
            JsonMember::Text(t) => MemberView::Text(t@),
            JsonMember::List(a) => MemberView::List(item_views(a@)),
            JsonMember::Other => MemberView::Other,
        }
    }
}

/// What is wrong with a text that is no JSON; `None` for one that is.
pub uninterp spec fn json_fault(text: Seq<char>) -> Option<Seq<char>>;

/// The member of a JSON text under a key.
pub uninterp spec fn json_member(text: Seq<char>, key: Seq<char>) -> MemberView;

/// Trusted: `serde_json::from_str`. Whether a text is JSON, and the message
/// when it is not, depends on the text alone.
#[verifier::external_body]
pub(crate) fn json_check(text: &str) -> (r: Result<(), String>)
    ensures
        r is Ok == json_fault(text@) is None,
        r matches Err(m) ==> json_fault(text@) == Some(m@),
{
    serde_json::from_str::<Value>(text).map(|_| ()).map_err(|e| e.to_string())
}

/// Trusted: indexing of a `serde_json::Value` by a key, and `as_u64`, `as_str`
/// and `as_array` of what stands there. What it gives depends on the text and
/// the key alone; a text that is no JSON has no members.
#[verifier::external_body]
pub(crate) fn json_read(text: &str, key: &str) -> (r: JsonMember)
    ensures
        r@ == json_member(text@, key@),
{
    let all: Value = serde_json::from_str(text).unwrap_or_default();
    let item = |x: &Value| match (x.as_u64(), x.as_str()) {
        (Some(n), _) => JsonItem::Number(n),
        (_, Some(t)) => JsonItem::Text(t.to_owned()),
        _ => JsonItem::Other,
    };
    match (all[key].as_u64(), all[key].as_str(), all[key].as_array()) {
        (Some(n), _, _) => JsonMember::Number(n),
        (_, Some(t), _) => JsonMember::Text(t.to_owned()),
        (_, _, Some(a)) => JsonMember::List(a.iter().map(item).collect()),
        _ => JsonMember::Other,
    }
}

/// The members of an object as mathematical values.
pub open spec fn member_views(s: Seq<(&str, JsonMember)>) -> Seq<(Seq<char>, MemberView)> {
    s.map_values(|m: (&str, JsonMember)| (m.0@, m.1@))
}

/// The JSON text of an object, on several lines.
pub uninterp spec fn json_pretty(members: Seq<(Seq<char>, MemberView)>) -> Seq<char>;

/// Trusted: `serde_json::to_string_pretty` of a `serde_json::Map`. The text
/// depends on the members alone; it is JSON, and reading a member back gives
/// what was written.
#[verifier::external_body]
pub(crate) fn json_write(members: &[(&str, JsonMember)]) -> (r: String)
    requires
        forall|i: int, j: int|
            0 <= i < members@.len() && 0 <= j < members@.len() && i != j ==> (
            #[trigger] members@[i]).0@ != (#[trigger] members@[j]).0@,
    ensures
        r@ == json_pretty(member_views(members@)),
        json_fault(r@) is None,
        forall|i: int|
            0 <= i < members@.len() ==> json_member(r@, (#[trigger] members@[i]).0@)
                == members@[i].1@,
{
    let item = |x: &JsonItem| match x {
        JsonItem::Number(n) => Value::from(*n),
        JsonItem::Text(t) => Value::from(t.as_str()),
        JsonItem::Other => Value::Null,
    };
    let member = |m: &JsonMember| match m {
        JsonMember::Number(n) => Value::from(*n),
        JsonMember::Text(t) => Value::from(t.as_str()),
        JsonMember::List(a) => a.iter().map(item).collect(),
        JsonMember::Other => Value::Null,
    };
    let all: serde_json::Map<String, Value> =
        members.iter().map(|(k, m)| ((*k).to_owned(), member(m))).collect();
    serde_json::to_string_pretty(&all).unwrap_or_default()
}

/// How many bytes the first JSON value of a byte string takes, with what
/// whitespace stands before it; `None` where none stands there.
pub uninterp spec fn json_extent(bytes: Seq<u8>) -> Option<nat>;

/// The string that bytes are in JSON; `None` where they are none.
pub uninterp spec fn json_string(bytes: Seq<u8>) -> Option<Seq<char>>;

/// The number of 32 bits that bytes are in JSON; `None` where they are none.
pub uninterp spec fn json_u32(bytes: Seq<u8>) -> Option<u32>;

/// The JSON text of a string.
pub uninterp spec fn json_quoted(text: Seq<char>) -> Seq<char>;

/// Trusted: the first `serde::de::IgnoredAny` of a
/// `serde_json::StreamDeserializer`, and its `byte_offset`. Whether a value
/// stands at the start of the bytes, and how far it reaches, depends on the bytes
/// alone; it takes at least one byte, and no more than there are.
#[verifier::external_body]
pub(crate) fn json_extent_of(bytes: &[u8]) -> (r: Option<usize>)
    ensures
        r is Some == json_extent(bytes@) is Some,
        r matches Some(n) ==> 0 < n <= bytes@.len() && json_extent(bytes@) == Some(n as nat),
{
    let all = serde_json::Deserializer::from_slice(bytes);
    let mut values = all.into_iter::<serde::de::IgnoredAny>();
    match values.next() {
        Some(Ok(_)) => Some(values.byte_offset()),
        _ => None,
    }
}

/// Trusted: `serde_json::from_slice` of a `String`. Whether the bytes are a
/// string, and which, depends on the bytes alone.
#[verifier::external_body]
pub(crate) fn json_string_of(bytes: &[u8]) -> (r: Option<String>)
    ensures
        r is Some == json_string(bytes@) is Some,
        r matches Some(t) ==> json_string(bytes@) == Some(t@),
{
    serde_json::from_slice::<String>(bytes).ok()
}

/// Trusted: `serde_json::from_slice` of a `u32`. Whether the bytes are such a
/// number, and which, depends on the bytes alone.
#[verifier::external_body]
pub(crate) fn json_u32_of(bytes: &[u8]) -> (r: Option<u32>)
    ensures
        r == json_u32(bytes@),
{
    serde_json::from_slice::<u32>(bytes).ok()
}

/// Trusted: `serde_json::to_string` of a `str`. The text depends on the string
/// alone; its bytes, the two quotes among them, are that string in JSON, and
/// whatever follows them, they are the first value.
#[verifier::external_body]
pub(crate) fn json_quote(text: &str) -> (r: String)
    ensures
        r@ == json_quoted(text@),
        json_string(utf8(r@)) == Some(text@),
        utf8(r@).len() >= 2,
        forall|rest: Seq<u8>| #[trigger]
            json_extent(utf8(r@) + rest) == Some(utf8(r@).len()),
{
    serde_json::to_string(text).unwrap_or_default()
}

/// Trusted: `serde_json::to_string` of a `u32`. The text is the number in
/// decimal; its bytes are that number in JSON, and before a comma they are the
/// first value.
#[verifier::external_body]
pub(crate) fn json_digits(n: u32) -> (r: String)
    ensures
        r@ == decimal(n as nat),
        json_u32(utf8(r@)) == Some(n),
        utf8(r@).len() > 0,
        forall|rest: Seq<u8>|
            rest.len() > 0 && rest[0] == 0x2c ==> #[trigger] json_extent(utf8(r@) + rest) == Some(
                utf8(r@).len(),
            ),
{
    serde_json::to_string(&n).unwrap_or_default()
}

impl MemberView {
    /// The number that a member is; zero when it is none.
    pub open spec fn number(self) -> u64 {
        match self {
            MemberView::Number(n) => n,
            _ => 0,
        }
    }

    /// The text that a member is; empty when it is none.
    pub open spec fn text(self) -> Seq<char> {
        match self {
            MemberView::Text(t) => t,
            _ => Seq::empty(),
        }
    }

    /// The texts in a member; none when it is no list.
    pub open spec fn texts(self) -> Seq<Seq<char>> {
        match self {
            MemberView::List(a) => texts_in(a),
            _ => Seq::empty(),
        }
    }

    /// The numbers in a member; none when it is no list.
    pub open spec fn numbers(self) -> Seq<u64> {
        match self {
            MemberView::List(a) => numbers_in(a),
            _ => Seq::empty(),
        }
    }
}

/// The texts among items.
pub open spec fn texts_in(s: Seq<ItemView>) -> Seq<Seq<char>>
    decreases s.len(),
{
    if s.len() == 0 {
        Seq::empty()
    } else {
        match s.last() {
            ItemView::Text(t) => texts_in(s.drop_last()).push(t),
            _ => texts_in(s.drop_last()),
        }
    }
}

/// The numbers among items.
pub open spec fn numbers_in(s: Seq<ItemView>) -> Seq<u64>
    decreases s.len(),
{
    if s.len() == 0 {
        Seq::empty()
    } else {
        match s.last() {
            ItemView::Number(n) => numbers_in(s.drop_last()).push(n),
            _ => numbers_in(s.drop_last()),
        }
    }
}

impl JsonMember {
    /// The number that the member is; zero when it is none.
    pub fn number(&self) -> (r: u64)
        ensures
            r == self@.number(),
    {
        match self {
            JsonMember::Number(n) => *n,
            _ => 0,
        }
    }

    /// The text that the member is; empty when it is none.
    pub fn text(&self) -> (r: String)
        ensures
            r@ == self@.text(),
    {
        match self {
            JsonMember::Text(t) => t.clone(),
            _ => {
                let r = String::new();
                assert(r@ =~= Seq::<char>::empty());
                r
            },
        }
    }

    /// The texts in the member; none when it is no list.
    pub fn texts(&self) -> (r: Vec<String>)
        ensures
            crate::sets::texts(r@) == self@.texts(),
    {
        let mut out: Vec<String> = Vec::new();
        assert(crate::sets::texts(out@) =~= Seq::<Seq<char>>::empty());
        if let JsonMember::List(a) = self {
            let ghost all = item_views(a@);
            let mut i: usize = 0;
            assert(all.take(0) =~= Seq::<ItemView>::empty());
            while i < a.len()
                invariant
                    i <= a.len(),
                    all == item_views(a@),
                    crate::sets::texts(out@) == texts_in(all.take(i as int)),
                decreases a.len() - i,
            {
                assert(all.take(i + 1).drop_last() =~= all.take(i as int));
                assert(all.take(i + 1).last() == a@[i as int]@);
                if let JsonItem::Text(t) = &a[i] {
                    let ghost before = crate::sets::texts(out@);
                    out.push(t.clone());
                    assert(crate::sets::texts(out@) =~= before.push(t@));
                }
                i += 1;
            }
            assert(all.take(i as int) =~= all);
        }
        out
    }

    /// The numbers in the member; none when it is no list.
    pub fn numbers(&self) -> (r: Vec<u64>)
        ensures
            r@ == self@.numbers(),
    {
        let mut out: Vec<u64> = Vec::new();
        if let JsonMember::List(a) = self {
            let ghost all = item_views(a@);
            let mut i: usize = 0;
            assert(all.take(0) =~= Seq::<ItemView>::empty());
            while i < a.len()
                invariant
                    i <= a.len(),
                    all == item_views(a@),
                    out@ == numbers_in(all.take(i as int)),
                decreases a.len() - i,
            {
                assert(all.take(i + 1).drop_last() =~= all.take(i as int));
                assert(all.take(i + 1).last() == a@[i as int]@);
                if let JsonItem::Number(n) = &a[i] {
                    out.push(*n);
                }
                i += 1;
            }
            assert(all.take(i as int) =~= all);
        }
        out
    }
}

/// A list of texts as a member.
pub(crate) fn text_list(s: &Vec<String>) -> (r: JsonMember)
    ensures
        r@ == MemberView::List(
            crate::sets::texts(s@).map_values(|t: Seq<char>| ItemView::Text(t)),
        ),
        r@.texts() == crate::sets::texts(s@),
{
    let ghost all = crate::sets::texts(s@);
    let mut out: Vec<JsonItem> = Vec::new();
    let mut i: usize = 0;
    assert(item_views(out@) =~= Seq::<ItemView>::empty());
    assert(all.take(0) =~= Seq::<Seq<char>>::empty());
    while i < s.len()
        invariant
            i <= s.len(),
            all == crate::sets::texts(s@),
            item_views(out@) =~= all.take(i as int).map_values(|t: Seq<char>| ItemView::Text(t)),
            texts_in(item_views(out@)) == all.take(i as int),
        decreases s.len() - i,
    {
        let ghost before = item_views(out@);
        out.push(JsonItem::Text(s[i].clone()));
        assert(item_views(out@) =~= before.push(ItemView::Text(all[i as int])));
        assert(item_views(out@).drop_last() =~= before);
        assert(all.take(i + 1) =~= all.take(i as int).push(all[i as int]));
        i += 1;
    }
    assert(all.take(i as int) =~= all);
    JsonMember::List(out)
}

/// A list of numbers as a member.
pub(crate) fn number_items(s: &Vec<u32>) -> (r: JsonMember)
    ensures
        r@ == MemberView::List(s@.map_values(|n: u32| ItemView::Number(n as u64))),
        r@.numbers() == s@.map_values(|n: u32| n as u64),
{
    let ghost all = s@.map_values(|n: u32| n as u64);
    let mut out: Vec<JsonItem> = Vec::new();
    let mut i: usize = 0;
    assert(item_views(out@) =~= Seq::<ItemView>::empty());
    assert(all.take(0) =~= Seq::<u64>::empty());
    while i < s.len()
        invariant
            i <= s.len(),
            all == s@.map_values(|n: u32| n as u64),
            item_views(out@) =~= s@.take(i as int).map_values(
                |n: u32| ItemView::Number(n as u64),
            ),
            numbers_in(item_views(out@)) == all.take(i as int),
        decreases s.len() - i,
    {
        let ghost before = item_views(out@);
        out.push(JsonItem::Number(s[i] as u64));
        assert(item_views(out@) =~= before.push(ItemView::Number(all[i as int])));
        assert(item_views(out@).drop_last() =~= before);
        assert(all.take(i + 1) =~= all.take(i as int).push(all[i as int]));
        i += 1;
    }
    assert(s@.take(i as int) =~= s@);
    assert(all.take(i as int) =~= all);
    JsonMember::List(out)
}

} // verus!
