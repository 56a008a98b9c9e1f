//! The messages that carry partial signatures: JSON objects with an index, a
//! nonce and a partial, in any order and among other members, or JSON arrays of
//! the three.

use vstd::prelude::*;

use crate::bytes::{append, utf8};
use crate::json::{
    json_digits, json_extent, json_extent_of, json_quote, json_quoted, json_string, json_string_of,
    json_u32, json_u32_of,
};
use crate::text::{decimal, same_text};
use crate::threshold::{PartialSignature, PartialView};

verus! {

/// Whether a byte is whitespace in JSON.
pub open spec fn is_blank(b: u8) -> bool {
    b == 0x20 || b == 0x0a || b == 0x09 || b == 0x0d
}

/// Bytes without the whitespace at their start.
pub open spec fn unblank(s: Seq<u8>) -> Seq<u8>
    decreases s.len(),
{
    if s.len() > 0 && is_blank(s[0]) {
        unblank(s.skip(1))
    } else {
        s
    }
}

/// What of a partial signature was read so far.
#[derive(Debug, PartialEq, Eq)]
pub struct PartialParts {
    /// The index.
    pub index: Option<u32>,
    /// The nonce.
    pub nonce: Option<String>,
    /// The partial.
    pub partial: Option<String>,
}

/// The parts of a partial signature as a mathematical value.
#[verifier::ext_equal]
pub struct PartsView {
    /// See [`PartialParts::index`].
    pub index: Option<u32>,
    /// See [`PartialParts::nonce`].
    pub nonce: Option<Seq<char>>,
    /// See [`PartialParts::partial`].
    pub partial: Option<Seq<char>>,
}

/// A text, if there is one, as a mathematical value.
pub open spec fn text_view(t: Option<String>) -> Option<Seq<char>> {
    match t {
        Some(t) => Some(t@),
        None => None,
    }
}

impl View for PartialParts {
    type V = PartsView;

    open spec fn view(&self) -> PartsView {
        PartsView {
            index: self.index,
            nonce: text_view(self.nonce),
            partial: text_view(self.partial),
        }
    }
}

impl PartsView {
    /// Nothing read yet.
    pub open spec fn none() -> PartsView {
        PartsView { index: None, nonce: None, partial: None }
    }

    /// The parts with one more member, given what its value is as a number and
    /// as a text; `None` where a part comes twice or has another type. Other
    /// members are passed over.
    pub open spec fn with(
        self,
        key: Seq<char>,
        number: Option<u32>,
        text: Option<Seq<char>>,
    ) -> Option<PartsView> {
        if key == "index"@ {
            if self.index is None && number is Some {
                Some(PartsView { index: number, ..self })
            } else {
                None
            }
        } else if key == "nonce"@ {
            if self.nonce is None && text is Some {
                Some(PartsView { nonce: text, ..self })
            } else {
                None
            }
        } else if key == "partial"@ {
            if self.partial is None && text is Some {
                Some(PartsView { partial: text, ..self })
            } else {
                None
            }
        } else {
            Some(self)
        }
    }

    /// The partial signature, once no part is missing.
    pub open spec fn whole(self) -> Option<PartialView> {
        match (self.index, self.nonce, self.partial) {
            (Some(index), Some(nonce), Some(partial)) => Some(
                PartialView { index, nonce, partial },
            ),
            _ => None,
        }
    }
}

impl PartialParts {
    /// Nothing read yet.
    pub fn none() -> (r: PartialParts)
        ensures
            r@ == PartsView::none(),
    {
        PartialParts { index: None, nonce: None, partial: None }
    }

    /// The parts with one more member, given what its value is as a number and
    /// as a text.
    pub fn with(self, key: &str, number: Option<u32>, text: Option<String>) -> (r: Option<
        PartialParts,
    >)
        ensures
            r is Some == self@.with(key@, number, text_view(text)) is Some,
            r matches Some(p) ==> Some(p@) == self@.with(key@, number, text_view(text)),
    {
        if same_text(key, "index") {
            if self.index.is_none() && number.is_some() {
                Some(PartialParts { index: number, nonce: self.nonce, partial: self.partial })
            } else {
                None
            }
        } else if same_text(key, "nonce") {
            if self.nonce.is_none() && text.is_some() {
                Some(PartialParts { index: self.index, nonce: text, partial: self.partial })
            } else {
                None
            }
        } else if same_text(key, "partial") {
            if self.partial.is_none() && text.is_some() {
                Some(PartialParts { index: self.index, nonce: self.nonce, partial: text })
            } else {
                None
            }
        } else {
            Some(self)
        }
    }

    /// The partial signature, once no part is missing.
    pub fn whole(self) -> (r: Option<PartialSignature>)
        ensures
            r is Some == self@.whole() is Some,
            r matches Some(p) ==> Some(p@) == self@.whole(),
    {
        match (self.index, self.nonce, self.partial) {
            (Some(index), Some(nonce), Some(partial)) => Some(
                PartialSignature { index, nonce, partial },
            ),
            _ => None,
        }
    }
}

/// The key that an item of an array stands for.
pub open spec fn place_key(place: nat) -> Seq<char> {
    if place == 0 {
        "index"@
    } else if place == 1 {
        "nonce"@
    } else {
        "partial"@
    }
}

/// The first JSON value of bytes, and what follows it and whitespace.
pub open spec fn first_of(s: Seq<u8>) -> Option<(Seq<u8>, Seq<u8>)> {
    match json_extent(s) {
        Some(n) => if 0 < n <= s.len() {
            Some((s.take(n as int), unblank(s.skip(n as int))))
        } else {
            None
        },
        None => None,
    }
}

/// The parts after a member whose value stands at the start of bytes, and what
/// follows the value.
pub open spec fn member_of(s: Seq<u8>, key: Seq<char>, parts: PartsView) -> Option<
    (PartsView, Seq<u8>),
> {
    match first_of(s) {
        Some((value, rest)) => match parts.with(key, json_u32(value), json_string(value)) {
            Some(more) => Some((more, rest)),
            None => None,
        },
        None => None,
    }
}

/// The parts after the members of an object, from the start of a key on.
pub open spec fn object_parts(s: Seq<u8>, parts: PartsView) -> Option<PartsView>
    decreases s.len(),
    via object_parts_shrink
{
    match first_of(s) {
        Some((name, rest)) => match json_string(name) {
            Some(key) => if rest.len() > 0 && rest[0] == 0x3a {
                match member_of(rest.skip(1), key, parts) {
                    Some((more, after)) => if after.len() == 0 {
                        None
                    } else if after[0] == 0x2c {
                        object_parts(after.skip(1), more)
                    } else if after[0] == 0x7d && unblank(after.skip(1)).len() == 0 {
                        Some(more)
                    } else {
                        None
                    },
                    None => None,
                }
            } else {
                None
            },
            None => None,
        },
        None => None,
    }
}

/// The parts after the items of an array, from one at a place on. There are
/// three.
pub open spec fn array_parts(s: Seq<u8>, place: nat, parts: PartsView) -> Option<PartsView>
    decreases s.len(),
    via array_parts_shrink
{
    if place >= 3 {
        None
    } else {
        match member_of(s, place_key(place), parts) {
            Some((more, after)) => if after.len() == 0 {
                None
            } else if after[0] == 0x2c {
                array_parts(after.skip(1), place + 1, more)
            } else if after[0] == 0x5d && unblank(after.skip(1)).len() == 0 {
                Some(more)
            } else {
                None
            },
            None => None,
        }
    }
}

#[via_fn]
proof fn object_parts_shrink(s: Seq<u8>, parts: PartsView) {
    if let Some((name, rest)) = first_of(s) {
        lemma_unblank(s.skip(json_extent(s)->0 as int));
        if rest.len() > 0 {
            let v = rest.skip(1);
            if let Some((value, after)) = first_of(v) {
                lemma_unblank(v.skip(json_extent(v)->0 as int));
            }
        }
    }
}

#[via_fn]
proof fn array_parts_shrink(s: Seq<u8>, place: nat, parts: PartsView) {
    if let Some((value, after)) = first_of(s) {
        lemma_unblank(s.skip(json_extent(s)->0 as int));
    }
}

proof fn lemma_unblank(s: Seq<u8>)
    ensures
        unblank(s).len() <= s.len(),
        s.len() > 0 && !is_blank(s[0]) ==> unblank(s) == s,
    decreases s.len(),
{
    if s.len() > 0 && is_blank(s[0]) {
        lemma_unblank(s.skip(1));
    }
}

/// The partial signature in a message, if it is one.
pub open spec fn partial_in(material: Seq<u8>) -> Option<PartialView> {
    let s = unblank(material);
    let parts = if s.len() == 0 {
        None
    } else if s[0] == 0x7b {
        object_parts(s.skip(1), PartsView::none())
    } else if s[0] == 0x5b {
        array_parts(s.skip(1), 0, PartsView::none())
    } else {
        None
    };
    match parts {
        Some(p) => p.whole(),
        None => None,
    }
}

fn skip_blank(bytes: &[u8], from: usize) -> (r: usize)
    requires
        from <= bytes@.len(),
    ensures
        from <= r <= bytes@.len(),
        bytes@.skip(r as int) == unblank(bytes@.skip(from as int)),
{
    let mut i: usize = from;
    while i < bytes.len() && (bytes[i] == 0x20 || bytes[i] == 0x0a || bytes[i] == 0x09 || bytes[i]
        == 0x0d)
        invariant
            from <= i <= bytes@.len(),
            unblank(bytes@.skip(i as int)) == unblank(bytes@.skip(from as int)),
        decreases bytes@.len() - i,
    {
        assert(bytes@.skip(i as int).skip(1) =~= bytes@.skip(i + 1));
        i += 1;
    }
    proof {
        lemma_unblank(bytes@.skip(i as int));
    }
    i
}

/// Where the first JSON value from a position on ends, and where what follows
/// it and whitespace starts.
fn first_at(bytes: &[u8], from: usize) -> (r: Option<(usize, usize)>)
    requires
        from <= bytes@.len(),
    ensures
        match first_of(bytes@.skip(from as int)) {
            None => r is None,
            Some((value, rest)) => r matches Some((end, next)) && from < end <= next <= bytes@.len()
                && value == bytes@.subrange(from as int, end as int) && rest == bytes@.skip(
                next as int,
            ),
        },
{
    let tail = vstd::slice::slice_subrange(bytes, from, bytes.len());
    assert(tail@ =~= bytes@.skip(from as int));
    match json_extent_of(tail) {
        None => None,
        Some(n) => {
            let end = from + n;
            let next = skip_blank(bytes, end);
            assert(tail@.take(n as int) =~= bytes@.subrange(from as int, end as int));
            assert(tail@.skip(n as int) =~= bytes@.skip(end as int));
            Some((end, next))
        },
    }
}

fn member_at(bytes: &[u8], from: usize, key: &str, parts: PartialParts) -> (r: Option<
    (PartialParts, usize),
>)
    requires
        from <= bytes@.len(),
    ensures
        match member_of(bytes@.skip(from as int), key@, parts@) {
            None => r is None,
            Some((more, rest)) => r matches Some((p, next)) && from < next <= bytes@.len() && p@
                == more && rest == bytes@.skip(next as int),
        },
{
    match first_at(bytes, from) {
        None => None,
        Some((end, next)) => {
            let value = vstd::slice::slice_subrange(bytes, from, end);
            match parts.with(key, json_u32_of(value), json_string_of(value)) {
                None => None,
                Some(more) => Some((more, next)),
            }
        },
    }
}

fn closes(bytes: &[u8], at: usize) -> (r: bool)
    requires
        at < bytes@.len(),
    ensures
        r == (unblank(bytes@.skip(at as int).skip(1)).len() == 0),
{
    assert(bytes@.skip(at as int).skip(1) =~= bytes@.skip(at + 1));
    let n = bytes.len();
    skip_blank(bytes, at + 1) == n
}

fn read_object(bytes: &[u8], from: usize) -> (r: Option<PartialParts>)
    requires
        from <= bytes@.len(),
    ensures
        match object_parts(bytes@.skip(from as int), PartsView::none()) {
            None => r is None,
            Some(p) => r matches Some(q) && q@ == p,
        },
{
    let mut parts = PartialParts::none();
    let mut at: usize = from;
    loop
        invariant
            at <= bytes@.len(),
            object_parts(bytes@.skip(at as int), parts@) == object_parts(
                bytes@.skip(from as int),
                PartsView::none(),
            ),
        decreases bytes@.len() - at,
    {
        let (end, next) = match first_at(bytes, at) {
            None => {
                return None;
            },
            Some(x) => x,
        };
        let key = match json_string_of(vstd::slice::slice_subrange(bytes, at, end)) {
            None => {
                return None;
            },
            Some(k) => k,
        };
        if next == bytes.len() || bytes[next] != 0x3a {
            return None;
        }
        assert(bytes@.skip(next as int).skip(1) =~= bytes@.skip(next + 1));
        let (more, after) = match member_at(bytes, next + 1, key.as_str(), parts) {
            None => {
                return None;
            },
            Some(x) => x,
        };
        if after == bytes.len() {
            return None;
        }
        if bytes[after] == 0x2c {
            assert(bytes@.skip(after as int).skip(1) =~= bytes@.skip(after + 1));
            parts = more;
            at = after + 1;
        } else if bytes[after] == 0x7d && closes(bytes, after) {
            return Some(more);
        } else {
            return None;
        }
    }
}

fn read_array(bytes: &[u8], from: usize) -> (r: Option<PartialParts>)
    requires
        from <= bytes@.len(),
    ensures
        match array_parts(bytes@.skip(from as int), 0, PartsView::none()) {
            None => r is None,
            Some(p) => r matches Some(q) && q@ == p,
        },
{
    let mut parts = PartialParts::none();
    let mut at: usize = from;
    let mut place: usize = 0;
    while place < 3
        invariant
            at <= bytes@.len(),
            place <= 3,
            array_parts(bytes@.skip(at as int), place as nat, parts@) == array_parts(
                bytes@.skip(from as int),
                0,
                PartsView::none(),
            ),
        decreases 3 - place,
    {
        let key = if place == 0 {
            "index"
        } else if place == 1 {
            "nonce"
        } else {
            "partial"
        };
        let (more, after) = match member_at(bytes, at, key, parts) {
            None => {
                return None;
            },
            Some(x) => x,
        };
        if after == bytes.len() {
            return None;
        }
        if bytes[after] == 0x2c {
            assert(bytes@.skip(after as int).skip(1) =~= bytes@.skip(after + 1));
            parts = more;
            at = after + 1;
            place += 1;
        } else if bytes[after] == 0x5d && closes(bytes, after) {
            return Some(more);
        } else {
            return None;
        }
    }
    None
}

/// A member of an object and what follows it.
pub open spec fn member_bytes(name: Seq<u8>, value: Seq<u8>, rest: Seq<u8>) -> Seq<u8> {
    name + (seq![0x3au8] + (value + rest))
}

/// The message of a partial signature.
pub open spec fn partial_message(p: PartialView) -> Seq<u8> {
    let last = member_bytes(
        utf8(json_quoted("partial"@)),
        utf8(json_quoted(p.partial)),
        seq![0x7du8],
    );
    let middle = member_bytes(
        utf8(json_quoted("nonce"@)),
        utf8(json_quoted(p.nonce)),
        seq![0x2cu8] + last,
    );
    let first = member_bytes(
        utf8(json_quoted("index"@)),
        utf8(decimal(p.index as nat)),
        seq![0x2cu8] + middle,
    );
    seq![0x7bu8] + first
}

/// What reading an object gives from a member on that was written.
proof fn lemma_object_step(
    name: Seq<u8>,
    key: Seq<char>,
    value: Seq<u8>,
    rest: Seq<u8>,
    parts: PartsView,
)
    requires
        json_string(name) == Some(key),
        0 < name.len(),
        0 < value.len(),
        json_extent(name + (seq![0x3au8] + (value + rest))) == Some(name.len()),
        json_extent(value + rest) == Some(value.len()),
        rest.len() > 0,
        rest[0] == 0x2c || rest == seq![0x7du8],
        parts.with(key, json_u32(value), json_string(value)) is Some,
    ensures
        object_parts(member_bytes(name, value, rest), parts) == (if rest[0] == 0x2c {
            object_parts(
                rest.skip(1),
                parts.with(key, json_u32(value), json_string(value))->0,
            )
        } else {
            parts.with(key, json_u32(value), json_string(value))
        }),
{
    let s = member_bytes(name, value, rest);
    let colon = seq![0x3au8] + (value + rest);
    let v = value + rest;
    assert(s.take(name.len() as int) =~= name);
    assert(s.skip(name.len() as int) =~= colon);
    lemma_unblank(colon);
    assert(colon.skip(1) =~= v);
    assert(v.take(value.len() as int) =~= value);
    assert(v.skip(value.len() as int) =~= rest);
    lemma_unblank(rest);
    if rest[0] != 0x2c {
        assert(rest.skip(1) =~= Seq::<u8>::empty());
    }
}

impl PartialSignature {
    /// Reads a partial signature from a message.
    pub fn decode(material: &[u8]) -> (r: Option<PartialSignature>)
        ensures
            r is Some == partial_in(material@) is Some,
            r matches Some(p) ==> Some(p@) == partial_in(material@),
    {
        let from = skip_blank(material, 0);
        assert(material@.skip(0) =~= material@);
        if from == material.len() {
            return None;
        }
        assert(material@.skip(from as int).skip(1) =~= material@.skip(from + 1));
        let parts = if material[from] == 0x7b {
            read_object(material, from + 1)
        } else if material[from] == 0x5b {
            read_array(material, from + 1)
        } else {
            None
        };
        match parts {
            None => None,
            Some(p) => p.whole(),
        }
    }

    /// The message of the partial signature. It reads back.
    pub fn encode(&self) -> (r: Vec<u8>)
        ensures
            r@ == partial_message(self@),
            partial_in(r@) == Some(self@),
    {
        let index_key = json_quote("index");
        let nonce_key = json_quote("nonce");
        let partial_key = json_quote("partial");
        let index = json_digits(self.index);
        let nonce = json_quote(self.nonce.as_str());
        let partial = json_quote(self.partial.as_str());
        let mut out: Vec<u8> = Vec::new();
        out.push(0x7b);
        append(&mut out, index_key.as_str().as_bytes());
        out.push(0x3a);
        append(&mut out, index.as_str().as_bytes());
        out.push(0x2c);
        append(&mut out, nonce_key.as_str().as_bytes());
        out.push(0x3a);
        append(&mut out, nonce.as_str().as_bytes());
        out.push(0x2c);
        append(&mut out, partial_key.as_str().as_bytes());
        out.push(0x3a);
        append(&mut out, partial.as_str().as_bytes());
        out.push(0x7d);
        proof {
            let last = member_bytes(utf8(partial_key@), utf8(partial@), seq![0x7du8]);
            let middle = member_bytes(utf8(nonce_key@), utf8(nonce@), seq![0x2cu8] + last);
            let first = member_bytes(utf8(index_key@), utf8(index@), seq![0x2cu8] + middle);
            assert(out@ =~= seq![0x7bu8] + first);
            assert(json_extent(utf8(index_key@) + (seq![0x3au8] + (utf8(index@) + (seq![0x2cu8]
                + middle)))) == Some(utf8(index_key@).len()));
            assert(json_extent(utf8(index@) + (seq![0x2cu8] + middle)) == Some(utf8(index@).len()));
            assert(json_extent(utf8(nonce_key@) + (seq![0x3au8] + (utf8(nonce@) + (seq![0x2cu8]
                + last)))) == Some(utf8(nonce_key@).len()));
            assert(json_extent(utf8(nonce@) + (seq![0x2cu8] + last)) == Some(utf8(nonce@).len()));
            assert(json_extent(utf8(partial_key@) + (seq![0x3au8] + (utf8(partial@)
                + seq![0x7du8]))) == Some(utf8(partial_key@).len()));
            assert(json_extent(utf8(partial@) + seq![0x7du8]) == Some(utf8(partial@).len()));
            reveal_strlit("index");
            reveal_strlit("nonce");
            reveal_strlit("partial");
            assert("index"@[0] == 'i' && "nonce"@[0] == 'n' && "partial"@[0] == 'p');
            let none = PartsView::none();
            let one = PartsView { index: Some(self.index), ..none };
            let two = PartsView { nonce: Some(self.nonce@), ..one };
            lemma_object_step(
                utf8(index_key@),
                "index"@,
                utf8(index@),
                seq![0x2cu8] + middle,
                none,
            );
            assert((seq![0x2cu8] + middle).skip(1) =~= middle);
            lemma_object_step(utf8(nonce_key@), "nonce"@, utf8(nonce@), seq![0x2cu8] + last, one);
            assert((seq![0x2cu8] + last).skip(1) =~= last);
            lemma_object_step(utf8(partial_key@), "partial"@, utf8(partial@), seq![0x7du8], two);
            lemma_unblank(out@);
            assert(out@.skip(1) =~= first);
        }
        out
    }
}

} // verus!
