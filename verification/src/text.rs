//! Strings as sequences of characters: building, ordering, trimming and
//! rendering them, with contracts over `Seq<char>`.

use vstd::prelude::*;
use vstd::utf8::{decode_utf8, valid_utf8};

verus! {

/// Trusted: `String::push` of std appends one character at the end.
pub assume_specification[ String::push ](s: &mut String, c: char)
    ensures
        final(s)@ == old(s)@.push(c),
;

/// Trusted: `String::push_str` of std appends the given string at the end.
pub assume_specification[ String::push_str ](s: &mut String, t: &str)
    ensures
        final(s)@ == old(s)@ + t@,
;

/// Trusted: `==` of std on `str` compares the contents.
pub assume_specification[ <str as PartialEq>::eq ](a: &str, b: &str) -> (r: bool)
    ensures
        r == (a@ == b@),
;

/// The text that `{:?}` of std writes for a string.
pub uninterp spec fn quoted(s: Seq<char>) -> Seq<char>;

/// Trusted: `{:?}` of std on `str` writes the string in quotes, with its
/// escapes. The text depends on the characters alone; [`quoted`] names it.
#[verifier::external_body]
pub(crate) fn quote(s: &str) -> (r: String)
    ensures
        r@ == quoted(s@),
{
    format!("{:?}", s)
}

/// Trusted: `std::str::from_utf8`. It succeeds for valid UTF-8, and gives the
/// characters that the bytes encode.
#[verifier::external_body]
pub(crate) fn text_of(bytes: &[u8]) -> (r: Option<String>)
    ensures
        r is Some == valid_utf8(bytes@),
        r matches Some(s) ==> s@ == decode_utf8(bytes@),
{
    std::str::from_utf8(bytes).ok().map(|s| s.to_owned())
}

/// The characters of a string.
pub fn chars_of(s: &str) -> (r: Vec<char>)
    ensures
        r@ == s@,
{
    let mut out: Vec<char> = Vec::new();
    for c in it: s.chars()
        invariant
            out@ == it.seq().take(it.index() as int),
            it.seq() == s@,
    {
        out.push(c);
    }
    out
}

/// The string with the given characters.
pub fn string_of(chars: &[char]) -> (r: String)
    ensures
        r@ == chars@,
{
    let mut out = String::new();
    let mut i: usize = 0;
    while i < chars.len()
        invariant
            i <= chars.len(),
            out@ == chars@.take(i as int),
        decreases chars.len() - i,
    {
        out.push(chars[i]);
        i += 1;
        assert(out@ == chars@.take(i as int));
    }
    assert(chars@.take(i as int) == chars@);
    out
}

/// Whether two strings have the same characters.
pub fn same_text(a: &str, b: &str) -> (r: bool)
    ensures
        r == (a@ == b@),
{
    *a == *b
}

/// Two strings joined.
pub fn cat2(a: &str, b: &str) -> (r: String)
    ensures
        r@ == a@ + b@,
{
    let mut out = a.to_owned();
    out.push_str(b);
    out
}

/// Three strings joined.
pub fn cat3(a: &str, b: &str, c: &str) -> (r: String)
    ensures
        r@ == a@ + b@ + c@,
{
    let mut out = a.to_owned();
    out.push_str(b);
    out.push_str(c);
    out
}

/// Four strings joined.
pub fn cat4(a: &str, b: &str, c: &str, d: &str) -> (r: String)
    ensures
        r@ == a@ + b@ + c@ + d@,
{
    let mut out = cat3(a, b, c);
    out.push_str(d);
    out
}

/// Five strings joined.
pub fn cat5(a: &str, b: &str, c: &str, d: &str, e: &str) -> (r: String)
    ensures
        r@ == a@ + b@ + c@ + d@ + e@,
{
    let mut out = cat3(a, b, c);
    out.push_str(d);
    out.push_str(e);
    out
}

/// Six strings joined.
pub fn cat6(a: &str, b: &str, c: &str, d: &str, e: &str, f: &str) -> (r: String)
    ensures
        r@ == a@ + b@ + c@ + d@ + e@ + f@,
{
    let mut out = cat5(a, b, c, d, e);
    out.push_str(f);
    out
}

/// Seven strings joined.
pub fn cat7(a: &str, b: &str, c: &str, d: &str, e: &str, f: &str, g: &str) -> (r: String)
    ensures
        r@ == a@ + b@ + c@ + d@ + e@ + f@ + g@,
{
    let mut out = cat5(a, b, c, d, e);
    out.push_str(f);
    out.push_str(g);
    out
}

/// The strict lexicographic order on strings, character by character. It is
/// the order of std's `Ord` on `str`.
pub open spec fn text_lt(a: Seq<char>, b: Seq<char>) -> bool
    decreases a.len(),
{
    b.len() > 0 && (a.len() == 0 || (a[0] as int) < (b[0] as int) || (a[0] == b[0] && text_lt(
        a.skip(1),
        b.skip(1),
    )))
}

/// No string is before itself.
pub proof fn lemma_text_lt_irreflexive(a: Seq<char>)
    ensures
        !text_lt(a, a),
    decreases a.len(),
{
    if a.len() > 0 {
        lemma_text_lt_irreflexive(a.skip(1));
    }
}

/// The order is transitive.
pub proof fn lemma_text_lt_transitive(a: Seq<char>, b: Seq<char>, c: Seq<char>)
    requires
        text_lt(a, b),
        text_lt(b, c),
    ensures
        text_lt(a, c),
    decreases a.len(),
{
    if a.len() > 0 && a[0] == b[0] && b[0] == c[0] {
        lemma_text_lt_transitive(a.skip(1), b.skip(1), c.skip(1));
    }
}

/// Of two different strings, one is before the other.
pub proof fn lemma_text_lt_total(a: Seq<char>, b: Seq<char>)
    ensures
        a == b || text_lt(a, b) || text_lt(b, a),
    decreases a.len(),
{
    if a.len() > 0 && b.len() > 0 && a[0] == b[0] {
        lemma_text_lt_total(a.skip(1), b.skip(1));
        if a.skip(1) == b.skip(1) {
            assert(a == seq![a[0]] + a.skip(1));
            assert(b == seq![b[0]] + b.skip(1));
        }
    } else if a.len() == 0 && b.len() == 0 {
        assert(a == b);
    }
}

proof fn lemma_text_lt_skip(a: Seq<char>, b: Seq<char>, i: int)
    requires
        0 <= i <= a.len(),
        i <= b.len(),
        a.take(i) == b.take(i),
    ensures
        text_lt(a, b) == text_lt(a.skip(i), b.skip(i)),
    decreases i,
{
    if i == 0 {
        assert(a.skip(0) == a);
        assert(b.skip(0) == b);
    } else {
        assert(a.take(i)[0] == a[0] && b.take(i)[0] == b[0]);
        assert(a.skip(1).take(i - 1) == a.take(i).skip(1));
        assert(b.skip(1).take(i - 1) == b.take(i).skip(1));
        lemma_text_lt_skip(a.skip(1), b.skip(1), i - 1);
        assert(a.skip(1).skip(i - 1) == a.skip(i));
        assert(b.skip(1).skip(i - 1) == b.skip(i));
    }
}

/// Whether `a` is before `b`.
pub fn text_before(a: &str, b: &str) -> (r: bool)
    ensures
        r == text_lt(a@, b@),
{
    let x = chars_of(a);
    let y = chars_of(b);
    let mut i: usize = 0;
    while i < x.len() && i < y.len() && x[i] == y[i]
        invariant
            i <= x.len(),
            i <= y.len(),
            x@ == a@,
            y@ == b@,
            x@.take(i as int) == y@.take(i as int),
        decreases x.len() - i,
    {
        i += 1;
        assert(x@.take(i as int) == x@.take(i - 1).push(x@[i - 1]));
        assert(y@.take(i as int) == y@.take(i - 1).push(y@[i - 1]));
    }
    proof {
        lemma_text_lt_skip(a@, b@, i as int);
    }
    i < y.len() && (i >= x.len() || x[i] < y[i])
}

/// Whether a character is white space (the Unicode property `White_Space`).
pub open spec fn is_space(c: char) -> bool {
    let n = c as u32;
    ||| 0x9 <= n <= 0xd
    ||| n == 0x20
    ||| n == 0x85
    ||| n == 0xa0
    ||| n == 0x1680
    ||| 0x2000 <= n <= 0x200a
    ||| n == 0x2028
    ||| n == 0x2029
    ||| n == 0x202f
    ||| n == 0x205f
    ||| n == 0x3000
}

fn space(c: char) -> (r: bool)
    ensures
        r == is_space(c),
{
    let n: u32 = c as u32;
    (0x9 <= n && n <= 0xd) || n == 0x20 || n == 0x85 || n == 0xa0 || n == 0x1680 || (0x2000 <= n
        && n <= 0x200a) || n == 0x2028 || n == 0x2029 || n == 0x202f || n == 0x205f || n == 0x3000
}

/// A string without the white space at its start.
pub open spec fn trimmed_start(s: Seq<char>) -> Seq<char>
    decreases s.len(),
{
    if s.len() > 0 && is_space(s[0]) {
        trimmed_start(s.skip(1))
    } else {
        s
    }
}

/// A string without the white space at its end.
pub open spec fn trimmed_end(s: Seq<char>) -> Seq<char>
    decreases s.len(),
{
    if s.len() > 0 && is_space(s.last()) {
        trimmed_end(s.drop_last())
    } else {
        s
    }
}

/// A string without the white space at both ends.
pub open spec fn trimmed(s: Seq<char>) -> Seq<char> {
    trimmed_end(trimmed_start(s))
}

/// Drops the white space at both ends.
pub fn trim(s: &str) -> (r: Vec<char>)
    ensures
        r@ == trimmed(s@),
{
    let all = chars_of(s);
    let mut i: usize = 0;
    assert(all@.skip(0) == all@);
    while i < all.len() && space(all[i])
        invariant
            i <= all.len(),
            trimmed_start(all@) == trimmed_start(all@.skip(i as int)),
        decreases all.len() - i,
    {
        assert(all@.skip(i as int).skip(1) == all@.skip(i + 1));
        i += 1;
    }
    assert(trimmed_start(all@) == all@.skip(i as int));
    let mut out: Vec<char> = Vec::new();
    let ghost start: int = i as int;
    while i < all.len()
        invariant
            0 <= start <= i <= all.len(),
            out@ == all@.subrange(start, i as int),
        decreases all.len() - i,
    {
        out.push(all[i]);
        i += 1;
        assert(out@ == all@.subrange(start, i as int));
    }
    assert(out@ == all@.skip(start));
    while out.len() > 0 && space(out[out.len() - 1])
        invariant
            trimmed_end(out@) == trimmed_end(all@.skip(start)),
        decreases out.len(),
    {
        let ghost before = out@;
        out.pop();
        assert(out@ == before.drop_last());
    }
    out
}

/// The lower-case form of an ASCII letter; any other character itself.
pub open spec fn ascii_lower(c: char) -> char {
    if 'A' <= c && c <= 'Z' {
        ((c as u8) + 32) as char
    } else {
        c
    }
}

/// Lower-cases an ASCII letter.
pub fn lower(c: char) -> (r: char)
    ensures
        r == ascii_lower(c),
{
    if 'A' <= c && c <= 'Z' {
        ((c as u8) + 32) as char
    } else {
        c
    }
}

/// A string with its ASCII letters in lower case.
pub open spec fn lowered(s: Seq<char>) -> Seq<char> {
    s.map_values(|c: char| ascii_lower(c))
}

/// Lower-cases the ASCII letters.
pub fn lower_all(s: &[char]) -> (r: Vec<char>)
    ensures
        r@ == lowered(s@),
{
    let mut out: Vec<char> = Vec::new();
    let mut i: usize = 0;
    while i < s.len()
        invariant
            i <= s.len(),
            out@ == lowered(s@).take(i as int),
        decreases s.len() - i,
    {
        out.push(lower(s[i]));
        i += 1;
        assert(out@ == lowered(s@).take(i as int));
    }
    assert(lowered(s@).take(i as int) == lowered(s@));
    out
}

/// The upper-case form of an ASCII letter; any other character itself.
pub open spec fn ascii_upper(c: char) -> char {
    if 'a' <= c && c <= 'z' {
        ((c as u8) - 32) as char
    } else {
        c
    }
}

/// A string with its ASCII letters in upper case.
pub open spec fn uppered(s: Seq<char>) -> Seq<char> {
    s.map_values(|c: char| ascii_upper(c))
}

/// Upper-cases the ASCII letters.
pub fn upper_all(s: &[char]) -> (r: Vec<char>)
    ensures
        r@ == uppered(s@),
{
    let mut out: Vec<char> = Vec::new();
    let mut i: usize = 0;
    while i < s.len()
        invariant
            i <= s.len(),
            out@ == uppered(s@).take(i as int),
        decreases s.len() - i,
    {
        let c = s[i];
        let u = if 'a' <= c && c <= 'z' {
            ((c as u8) - 32) as char
        } else {
            c
        };
        out.push(u);
        i += 1;
        assert(out@ == uppered(s@).take(i as int));
    }
    assert(uppered(s@).take(i as int) == uppered(s@));
    out
}

/// Whether a character is a printing ASCII character other than the space.
pub open spec fn is_graphic(c: char) -> bool {
    0x21 <= c as u32 <= 0x7e
}

/// Whether every character is a printing ASCII character.
pub open spec fn all_graphic(s: Seq<char>) -> bool {
    forall|i: int| 0 <= i < s.len() ==> is_graphic(#[trigger] s[i])
}

/// Tests that every character is a printing ASCII character.
pub fn graphic(s: &[char]) -> (r: bool)
    ensures
        r == all_graphic(s@),
{
    let mut i: usize = 0;
    while i < s.len()
        invariant
            i <= s.len(),
            forall|k: int| 0 <= k < i ==> is_graphic(#[trigger] s@[k]),
        decreases s.len() - i,
    {
        let n: u32 = s[i] as u32;
        if n < 0x21 || 0x7e < n {
            assert(!is_graphic(s@[i as int]));
            return false;
        }
        i += 1;
    }
    true
}

/// The character of a decimal digit.
pub open spec fn digit(n: nat) -> char {
    (('0' as u8) + n) as char
}

/// A number in decimal, without leading zeros.
pub open spec fn decimal(n: nat) -> Seq<char>
    decreases n,
{
    if n < 10 {
        seq![digit(n)]
    } else {
        decimal(n / 10).push(digit(n % 10))
    }
}

/// Renders a number in decimal.
pub fn number(n: u64) -> (r: String)
    ensures
        r@ == decimal(n as nat),
    decreases n,
{
    let c = (48u8 + (n % 10) as u8) as char;
    if n < 10 {
        let mut out = String::new();
        out.push(c);
        assert(out@ == seq![digit(n as nat)]);
        out
    } else {
        let mut out = number(n / 10);
        out.push(c);
        out
    }
}

/// Renders a number in decimal.
pub fn count(n: usize) -> (r: String)
    ensures
        r@ == decimal(n as nat),
{
    number(n as u64)
}

/// The character of a hexadecimal digit, in lower case.
pub open spec fn hex_digit(n: int) -> char {
    if n < 10 {
        (('0' as u8) + n) as char
    } else {
        (('a' as u8) + n - 10) as char
    }
}

/// Bytes in hexadecimal, two lower-case digits each.
pub open spec fn hex_text(bytes: Seq<u8>) -> Seq<char> {
    Seq::new(
        2 * bytes.len(),
        |i: int|
            if i % 2 == 0 {
                hex_digit(bytes[i / 2] as int / 16)
            } else {
                hex_digit(bytes[i / 2] as int % 16)
            },
    )
}

fn nibble(n: u8) -> (r: char)
    requires
        n < 16,
    ensures
        r == hex_digit(n as int),
{
    if n < 10 {
        (48u8 + n) as char
    } else {
        (97u8 + (n - 10)) as char
    }
}

/// Renders bytes in hexadecimal.
pub fn hex(bytes: &[u8]) -> (r: String)
    ensures
        r@ == hex_text(bytes@),
{
    let mut out = String::new();
    let mut i: usize = 0;
    while i < bytes.len()
        invariant
            i <= bytes.len(),
            out@ == hex_text(bytes@).take(2 * i as int),
        decreases bytes.len() - i,
    {
        out.push(nibble(bytes[i] / 16));
        out.push(nibble(bytes[i] % 16));
        i += 1;
        assert(out@ == hex_text(bytes@).take(2 * i as int));
    }
    assert(hex_text(bytes@).take(2 * i as int) == hex_text(bytes@));
    out
}

/// The value of a hexadecimal digit, in either case.
pub open spec fn hex_value(c: char) -> Option<int> {
    if '0' <= c && c <= '9' {
        Some(c as u8 - '0' as u8)
    } else if 'a' <= c && c <= 'f' {
        Some(c as u8 - 'a' as u8 + 10)
    } else if 'A' <= c && c <= 'F' {
        Some(c as u8 - 'A' as u8 + 10)
    } else {
        None
    }
}

/// The value of two hexadecimal digits; a plus sign may stand for the first.
pub open spec fn pair_value(hi: char, lo: char) -> Option<int> {
    match hex_value(lo) {
        None => None,
        Some(l) => if hi == '+' {
            Some(l)
        } else {
            match hex_value(hi) {
                None => None,
                Some(h) => Some(h * 16 + l),
            }
        },
    }
}

/// The value of the digits of a byte in a hexadecimal string.
pub open spec fn byte_at(s: Seq<char>, i: int) -> Option<int> {
    pair_value(s[2 * i], s[2 * i + 1])
}

/// The bytes that a hexadecimal string denotes, if it denotes any: its length
/// is even and every pair of characters is the digits of a byte.
pub open spec fn unhex_text(s: Seq<char>) -> Option<Seq<u8>> {
    if s.len() % 2 == 0 && (forall|i: int|
        0 <= i < s.len() / 2 ==> #[trigger] byte_at(s, i) is Some) {
        Some(Seq::new(s.len() / 2, |i: int| byte_at(s, i)->0 as u8))
    } else {
        None
    }
}

fn digit_value(c: char) -> (r: Option<u8>)
    ensures
        r is Some == hex_value(c) is Some,
        r matches Some(v) ==> v as int == hex_value(c)->0 && v < 16,
{
    if '0' <= c && c <= '9' {
        Some(c as u8 - 48u8)
    } else if 'a' <= c && c <= 'f' {
        Some(c as u8 - 97u8 + 10)
    } else if 'A' <= c && c <= 'F' {
        Some(c as u8 - 65u8 + 10)
    } else {
        None
    }
}

fn pair(hi: char, lo: char) -> (r: Option<u8>)
    ensures
        r is Some == pair_value(hi, lo) is Some,
        r matches Some(v) ==> v as int == pair_value(hi, lo)->0,
{
    match digit_value(lo) {
        None => None,
        Some(l) => if hi == '+' {
            Some(l)
        } else {
            match digit_value(hi) {
                None => None,
                Some(h) => Some(h * 16 + l),
            }
        },
    }
}

/// Reads a hexadecimal string.
pub fn unhex(s: &str) -> (r: Option<Vec<u8>>)
    ensures
        r is Some == unhex_text(s@) is Some,
        r matches Some(v) ==> v@ == unhex_text(s@)->0,
{
    let chars = chars_of(s);
    if chars.len() % 2 != 0 {
        return None;
    }
    let mut out: Vec<u8> = Vec::new();
    let mut i: usize = 0;
    while i < chars.len()
        invariant
            chars@ == s@,
            i <= chars.len(),
            chars.len() % 2 == 0,
            i % 2 == 0,
            out.len() == i / 2,
            forall|k: int| 0 <= k < i / 2 ==> #[trigger] byte_at(s@, k) is Some,
            forall|k: int|
                0 <= k < out.len() ==> #[trigger] out@[k] == byte_at(s@, k)->0 as u8,
        decreases chars.len() - i,
    {
        let ghost here = byte_at(s@, i as int / 2);
        match pair(chars[i], chars[i + 1]) {
            Some(b) => {
                out.push(b);
            },
            None => {
                assert(here is None);
                return None;
            },
        }
        i += 2;
    }
    assert(out@ == unhex_text(s@)->0);
    Some(out)
}

/// Reading the rendering of bytes gives the bytes back.
pub proof fn unhex_inverts_hex(bytes: Seq<u8>)
    ensures
        unhex_text(hex_text(bytes)) == Some(bytes),
{
    let s = hex_text(bytes);
    assert forall|i: int| 0 <= i < s.len() / 2 implies #[trigger] byte_at(s, i) == Some(
        bytes[i] as int,
    ) by {
        assert((2 * i) / 2 == i && (2 * i) % 2 == 0);
        assert((2 * i + 1) / 2 == i && (2 * i + 1) % 2 == 1);
        assert(s[2 * i] == hex_digit(bytes[i] as int / 16));
        assert(s[2 * i + 1] == hex_digit(bytes[i] as int % 16));
        assert(bytes[i] as int / 16 < 16);
    }
    assert(unhex_text(s)->0 =~= bytes);
}

} // verus!
