//! The canonical byte form of signed objects: a stream of fields, each of a
//! fixed width or with its length in front, so that two different streams of
//! fields never give the same bytes.

use vstd::bytes::{
    spec_u32_to_le_bytes, spec_u64_to_le_bytes, spec_u64_from_le_bytes, u32_to_le_bytes,
    u64_from_le_bytes, u64_to_le_bytes,
};
use vstd::prelude::*;

use crate::bytes::{append, copied, utf8};
use crate::digest::Hash32;
use crate::sets::texts;

verus! {

/// A byte string with its length in front, as eight little-endian bytes.
pub open spec fn field(b: Seq<u8>) -> Seq<u8> {
    spec_u64_to_le_bytes(b.len() as u64) + b
}

/// A text as a field, in UTF-8.
pub open spec fn text_field(s: Seq<char>) -> Seq<u8> {
    field(utf8(s))
}

/// Fields one after the other.
pub open spec fn fields(parts: Seq<Seq<u8>>) -> Seq<u8>
    decreases parts.len(),
{
    if parts.len() == 0 {
        Seq::empty()
    } else {
        fields(parts.drop_last()) + field(parts.last())
    }
}

/// Texts as fields, one after the other.
pub open spec fn text_fields(s: Seq<Seq<char>>) -> Seq<u8>
    decreases s.len(),
{
    if s.len() == 0 {
        Seq::empty()
    } else {
        text_fields(s.drop_last()) + text_field(s.last())
    }
}

/// A list of texts: their number, then each as a field.
pub open spec fn list_bytes(s: Seq<Seq<char>>) -> Seq<u8> {
    spec_u64_to_le_bytes(s.len() as u64) + text_fields(s)
}

/// An optional text: a truth value, then the text as a field if there is one.
pub open spec fn option_bytes(s: Option<Seq<char>>) -> Seq<u8> {
    match s {
        Some(t) => bool_bytes(true) + text_field(t),
        None => bool_bytes(false),
    }
}

/// An optional number: a truth value, then the number if there is one.
pub open spec fn option_number_bytes(n: Option<u64>) -> Seq<u8> {
    match n {
        Some(m) => bool_bytes(true) + spec_u64_to_le_bytes(m),
        None => bool_bytes(false),
    }
}

/// The text of an optional string.
pub open spec fn option_text(s: Option<String>) -> Option<Seq<char>> {
    match s {
        Some(t) => Some(t@),
        None => None,
    }
}

/// A signed number as its two's complement, eight little-endian bytes.
pub open spec fn i64_bytes(n: i64) -> Seq<u8> {
    spec_u64_to_le_bytes(n as u64)
}

/// A truth value as one byte.
pub open spec fn bool_bytes(b: bool) -> Seq<u8> {
    seq![if b { 1u8 } else { 0u8 }]
}

/// A growing canonical byte string.
pub struct CanonicalWriter {
    out: Vec<u8>,
}

impl View for CanonicalWriter {
    type V = Seq<u8>;

    closed spec fn view(&self) -> Seq<u8> {
        self.out@
    }
}

impl CanonicalWriter {
    /// Starts with no bytes.
    pub fn new() -> (r: CanonicalWriter)
        ensures
            r@ == Seq::<u8>::empty(),
    {
        CanonicalWriter { out: Vec::new() }
    }

    /// Appends a byte string with its length in front.
    pub fn write_bytes(&mut self, b: &[u8])
        ensures
            final(self)@ == old(self)@ + field(b@),
    {
        let n = u64_to_le_bytes(b.len() as u64);
        append(&mut self.out, n.as_slice());
        append(&mut self.out, b);
        assert(self@ =~= old(self)@ + field(b@));
    }

    /// Appends a text with its length in front.
    pub fn write_str(&mut self, s: &str)
        ensures
            final(self)@ == old(self)@ + text_field(s@),
    {
        self.write_bytes(s.as_bytes());
    }

    /// Appends one byte.
    pub fn write_tag(&mut self, tag: u8)
        ensures
            final(self)@ == old(self)@.push(tag),
    {
        self.out.push(tag);
    }

    /// Appends a truth value.
    pub fn write_bool(&mut self, b: bool)
        ensures
            final(self)@ == old(self)@ + bool_bytes(b),
    {
        self.out.push(if b { 1u8 } else { 0u8 });
        assert(self@ =~= old(self)@ + bool_bytes(b));
    }

    /// Appends a number as four bytes.
    pub fn write_u32(&mut self, n: u32)
        ensures
            final(self)@ == old(self)@ + spec_u32_to_le_bytes(n),
    {
        let b = u32_to_le_bytes(n);
        append(&mut self.out, b.as_slice());
    }

    /// Appends a number as eight bytes.
    pub fn write_u64(&mut self, n: u64)
        ensures
            final(self)@ == old(self)@ + spec_u64_to_le_bytes(n),
    {
        let b = u64_to_le_bytes(n);
        append(&mut self.out, b.as_slice());
    }

    /// Appends a signed number as eight bytes.
    pub fn write_i64(&mut self, n: i64)
        ensures
            final(self)@ == old(self)@ + i64_bytes(n),
    {
        self.write_u64(n as u64);
    }

    /// Appends texts, each as a field.
    pub fn write_texts(&mut self, s: &Vec<String>)
        ensures
            final(self)@ == old(self)@ + text_fields(texts(s@)),
    {
        let ghost start = self@;
        let ghost all = texts(s@);
        let mut i: usize = 0;
        assert(all.take(0) =~= Seq::<Seq<char>>::empty());
        while i < s.len()
            invariant
                i <= s.len(),
                all == texts(s@),
                self@ =~= start + text_fields(all.take(i as int)),
            decreases s.len() - i,
        {
            assert(all.take(i + 1).drop_last() =~= all.take(i as int));
            assert(all.take(i + 1).last() == s@[i as int]@);
            self.write_str(s[i].as_str());
            i += 1;
        }
        assert(all.take(i as int) =~= all);
    }

    /// Appends a list of texts: their number, then the texts.
    pub fn write_list(&mut self, s: &Vec<String>)
        ensures
            final(self)@ == old(self)@ + list_bytes(texts(s@)),
    {
        self.write_u64(s.len() as u64);
        self.write_texts(s);
        assert(self@ =~= old(self)@ + list_bytes(texts(s@)));
    }

    /// Appends an optional text.
    pub fn write_option(&mut self, s: &Option<String>)
        ensures
            final(self)@ == old(self)@ + option_bytes(option_text(*s)),
    {
        match s {
            Some(t) => {
                self.write_bool(true);
                self.write_str(t.as_str());
            },
            None => self.write_bool(false),
        }
        assert(self@ =~= old(self)@ + option_bytes(option_text(*s)));
    }

    /// Appends an optional number.
    pub fn write_option_number(&mut self, n: Option<u64>)
        ensures
            final(self)@ == old(self)@ + option_number_bytes(n),
    {
        match n {
            Some(m) => {
                self.write_bool(true);
                self.write_u64(m);
            },
            None => self.write_bool(false),
        }
        assert(self@ =~= old(self)@ + option_number_bytes(n));
    }

    /// Appends the 32 bytes of a digest.
    pub fn write_hash(&mut self, h: &Hash32)
        ensures
            final(self)@ == old(self)@ + h@,
    {
        append(&mut self.out, h.0.as_slice());
    }

    /// The bytes written.
    pub fn into_bytes(self) -> (r: Vec<u8>)
        ensures
            r@ == self@,
    {
        self.out
    }
}

/// The first field of a byte string and what follows it, if it starts with
/// one.
pub open spec fn split_field(b: Seq<u8>) -> Option<(Seq<u8>, Seq<u8>)> {
    if b.len() < 8 {
        None
    } else {
        let n = spec_u64_from_le_bytes(b.take(8)) as int;
        if b.len() - 8 < n {
            None
        } else {
            Some((b.subrange(8, 8 + n), b.skip(8 + n)))
        }
    }
}

/// The fields that a byte string consists of, if it consists of fields.
pub open spec fn split_fields(b: Seq<u8>) -> Option<Seq<Seq<u8>>>
    decreases b.len(),
{
    if b.len() == 0 {
        Some(Seq::empty())
    } else {
        match split_field(b) {
            None => None,
            Some((head, rest)) => {
                match split_fields(rest) {
                    None => None,
                    Some(tail) => Some(seq![head] + tail),
                }
            },
        }
    }
}

/// Reads a canonical byte string from its start.
pub struct CanonicalReader<'a> {
    data: &'a [u8],
    at: usize,
}

impl<'a> CanonicalReader<'a> {
    #[verifier::type_invariant]
    spec fn within(self) -> bool {
        self.at <= self.data@.len()
    }

    /// The bytes not read yet.
    pub closed spec fn rest(self) -> Seq<u8> {
        self.data@.skip(self.at as int)
    }

    /// Starts at the first byte.
    pub fn new(data: &'a [u8]) -> (r: CanonicalReader<'a>)
        ensures
            r.rest() == data@,
    {
        let r = CanonicalReader { data, at: 0 };
        assert(r.rest() =~= data@);
        r
    }

    /// The number of bytes not read yet.
    pub fn remaining(&self) -> (r: usize)
        ensures
            r == self.rest().len(),
    {
        proof {
            use_type_invariant(self);
        }
        self.data.len() - self.at
    }

    /// Reads one field; `None` when the bytes do not start with one.
    pub fn read_bytes(&mut self) -> (r: Option<Vec<u8>>)
        ensures
            r is Some == split_field(old(self).rest()) is Some,
            r matches Some(v) ==> (v@, final(self).rest()) == split_field(old(self).rest())->0,
            r is None ==> final(self).rest() == old(self).rest(),
    {
        proof {
            use_type_invariant(&*self);
        }
        let left: usize = self.data.len() - self.at;
        if left < 8 {
            return None;
        }
        let head = vstd::slice::slice_subrange(self.data, self.at, self.at + 8);
        assert(head@ == self.rest().take(8));
        let n: u64 = u64_from_le_bytes(head);
        if n > (left - 8) as u64 {
            return None;
        }
        let len: usize = n as usize;
        let body = vstd::slice::slice_subrange(self.data, self.at + 8, self.at + 8 + len);
        let out = copied(body);
        assert(out@ == self.rest().subrange(8, 8 + n as int));
        self.at = self.at + 8 + len;
        assert(self.rest() == old(self).rest().skip(8 + n as int));
        Some(out)
    }
}

/// What a field starts with is the field.
pub proof fn lemma_split_field(b: Seq<u8>, rest: Seq<u8>)
    requires
        b.len() <= u64::MAX,
    ensures
        split_field(field(b) + rest) == Some((b, rest)),
{
    vstd::bytes::lemma_auto_spec_u64_to_from_le_bytes();
    let all = field(b) + rest;
    let n = spec_u64_to_le_bytes(b.len() as u64);
    assert(all.take(8) =~= n);
    assert(all.subrange(8, 8 + b.len() as int) =~= b);
    assert(all.skip(8 + b.len() as int) =~= rest);
}

proof fn lemma_fields_prepend(first: Seq<u8>, parts: Seq<Seq<u8>>)
    ensures
        fields(seq![first] + parts) == field(first) + fields(parts),
    decreases parts.len(),
{
    let all = seq![first] + parts;
    if parts.len() == 0 {
        assert(all.drop_last() =~= Seq::<Seq<u8>>::empty());
        assert(fields(all.drop_last()) =~= Seq::<u8>::empty());
        assert(fields(all) =~= field(first));
        assert(fields(parts) =~= Seq::<u8>::empty());
        assert(field(first) + fields(parts) =~= field(first));
    } else {
        assert(all.drop_last() =~= seq![first] + parts.drop_last());
        lemma_fields_prepend(first, parts.drop_last());
        assert(fields(all) =~= field(first) + fields(parts));
    }
}

/// Reading the fields of a stream of fields gives the fields back: the stream
/// is unambiguous.
pub proof fn split_fields_inverts_fields(parts: Seq<Seq<u8>>)
    requires
        forall|i: int| 0 <= i < parts.len() ==> (#[trigger] parts[i]).len() <= u64::MAX,
    ensures
        split_fields(fields(parts)) == Some(parts),
    decreases parts.len(),
{
    if parts.len() > 0 {
        let first = parts[0];
        let tail = parts.skip(1);
        assert(parts =~= seq![first] + tail);
        lemma_fields_prepend(first, tail);
        lemma_split_field(first, fields(tail));
        assert forall|i: int| 0 <= i < tail.len() implies (#[trigger] tail[i]).len()
            <= u64::MAX by {
            assert(tail[i] == parts[i + 1]);
        }
        split_fields_inverts_fields(tail);
        vstd::bytes::lemma_auto_spec_u64_to_from_le_bytes();
        assert(field(first).len() >= 8);
    } else {
        assert(parts =~= Seq::<Seq<u8>>::empty());
    }
}

/// Two different streams of fields never have the same bytes.
pub proof fn fields_are_injective(a: Seq<Seq<u8>>, b: Seq<Seq<u8>>)
    requires
        forall|i: int| 0 <= i < a.len() ==> (#[trigger] a[i]).len() <= u64::MAX,
        forall|i: int| 0 <= i < b.len() ==> (#[trigger] b[i]).len() <= u64::MAX,
        fields(a) == fields(b),
    ensures
        a == b,
{
    split_fields_inverts_fields(a);
    split_fields_inverts_fields(b);
}

} // verus!
