//! Moments and intervals of time.

use vstd::prelude::*;

use crate::text::{cat2, cat3, cat5, chars_of, decimal, number};

verus! {

/// A moment: seconds since the start of 1970 in UTC, and nanoseconds.
#[derive(Debug, Clone, Copy, PartialEq, Eq, PartialOrd, Ord, Hash, Structural)]
pub struct Timestamp {
    /// Seconds since the start of 1970.
    pub secs: i64,
    /// Nanoseconds within the second.
    pub nanos: u32,
}

impl Timestamp {
    /// Whether this moment is before the other.
    pub open spec fn lt(self, other: Timestamp) -> bool {
        self.secs < other.secs || (self.secs == other.secs && self.nanos < other.nanos)
    }

    /// Whether this moment is the other or before it.
    pub open spec fn le(self, other: Timestamp) -> bool {
        !other.lt(self)
    }

    /// The moment at a whole second.
    pub fn from_secs(secs: i64) -> (r: Timestamp)
        ensures
            r == (Timestamp { secs, nanos: 0 }),
    {
        Timestamp { secs, nanos: 0 }
    }

    /// Whether this moment is before the other.
    pub fn before(self, other: Timestamp) -> (r: bool)
        ensures
            r == self.lt(other),
    {
        self.secs < other.secs || (self.secs == other.secs && self.nanos < other.nanos)
    }

    /// Whether this moment is the other or before it.
    pub fn not_after(self, other: Timestamp) -> (r: bool)
        ensures
            r == self.le(other),
    {
        !other.before(self)
    }

    /// The whole seconds from an earlier moment to this one; negative when
    /// the other moment is later, and held within the range of the type.
    pub fn signed_secs_since(self, earlier: Timestamp) -> (r: i64)
        ensures
            r == self.spec_secs_since(earlier),
    {
        let d: i128 = self.secs as i128 - earlier.secs as i128;
        if d > 0x7fff_ffff_ffff_ffff {
            0x7fff_ffff_ffff_ffff
        } else if d < -0x8000_0000_0000_0000 {
            -0x8000_0000_0000_0000
        } else {
            d as i64
        }
    }

    /// The difference in seconds, held within the range of `i64`.
    pub open spec fn spec_secs_since(self, earlier: Timestamp) -> int {
        let d = self.secs - earlier.secs;
        if d > i64::MAX {
            i64::MAX as int
        } else if d < i64::MIN {
            i64::MIN as int
        } else {
            d
        }
    }

    /// The moment in words.
    pub open spec fn text(self) -> Seq<char> {
        if self.secs < 0 {
            "-"@ + decimal((-self.secs) as nat) + "s+"@ + decimal(self.nanos as nat) + "ns"@
        } else {
            ""@ + decimal(self.secs as nat) + "s+"@ + decimal(self.nanos as nat) + "ns"@
        }
    }

    /// Renders the moment.
    pub fn to_string(&self) -> (r: String)
        ensures
            r@ == self.text(),
    {
        let nanos = number(self.nanos as u64);
        if self.secs < 0 {
            let n: i128 = -(self.secs as i128);
            let secs = number(n as u64);
            cat5("-", secs.as_str(), "s+", nanos.as_str(), "ns")
        } else {
            let secs = number(self.secs as u64);
            cat5("", secs.as_str(), "s+", nanos.as_str(), "ns")
        }
    }

    /// Reads an RFC 3339 date and time.
    pub fn parse(s: &str) -> (r: Option<Timestamp>)
        ensures
            r == rfc3339(s@),
    {
        let c = chars_of(s);
        if c.len() < 20 {
            return None;
        }
        let (y1, y2, mo, d, h, mi, sec) = match (
            two_digits(&c, 0),
            two_digits(&c, 2),
            two_digits(&c, 5),
            two_digits(&c, 8),
            two_digits(&c, 11),
            two_digits(&c, 14),
            two_digits(&c, 17),
        ) {
            (Some(a), Some(b), Some(m), Some(d), Some(h), Some(i), Some(s)) => (
                a,
                b,
                m,
                d,
                h,
                i,
                s,
            ),
            _ => {
                return None;
            },
        };
        let y: i64 = y1 * 100 + y2;
        if c[4] != '-' || c[7] != '-' || (c[10] != 'T' && c[10] != 't') || c[13] != ':' || c[16]
            != ':' || mo < 1 || 12 < mo || d < 1 || month_days(y, mo) < d || 23 < h || 59 < mi || 59
            < sec {
            return None;
        }
        let (nanos, zone) = match fraction(&c) {
            Some(f) => f,
            None => {
                return None;
            },
        };
        let offset = match zone_offset(&c, zone) {
            Some(o) => o,
            None => {
                return None;
            },
        };
        let days: i64 = civil_days(y, mo, d);
        Some(Timestamp { secs: days * 86400 + h * 3600 + mi * 60 + sec - offset, nanos })
    }
}

/// Whether a year has 366 days.
pub open spec fn is_leap(y: int) -> bool {
    y % 4 == 0 && (y % 100 != 0 || y % 400 == 0)
}

/// The days of a month.
pub open spec fn days_in_month(y: int, m: int) -> int {
    if m == 2 {
        if is_leap(y) {
            29
        } else {
            28
        }
    } else if m == 4 || m == 6 || m == 9 || m == 11 {
        30
    } else {
        31
    }
}

/// The days of a year before the first day of a month.
pub open spec fn days_before_month(y: int, m: int) -> int
    decreases m,
{
    if m <= 1 {
        0
    } else {
        days_before_month(y, m - 1) + days_in_month(y, m - 1)
    }
}

/// The days from the start of 1970 to a date of the Gregorian calendar.
pub open spec fn days_from_civil(y: int, m: int, d: int) -> int {
    let leaps_before = (y - 1) / 4 - (y - 1) / 100 + (y - 1) / 400;
    // 719162 days lie between the start of year 1 and the start of 1970.
    365 * (y - 1) + leaps_before - 719162 + days_before_month(y, m) + d - 1
}

/// The value of a decimal digit.
pub open spec fn digit_of(c: char) -> Option<int> {
    if '0' <= c && c <= '9' {
        Some(c as u8 - '0' as u8)
    } else {
        None
    }
}

/// The number that the two digits from a position on denote.
pub open spec fn two_at(c: Seq<char>, i: int) -> Option<int> {
    match (digit_of(c[i]), digit_of(c[i + 1])) {
        (Some(a), Some(b)) => Some(a * 10 + b),
        _ => None,
    }
}

/// The end of the run of digits that starts at a position.
pub open spec fn digits_end(c: Seq<char>, i: int) -> int
    decreases c.len() - i,
{
    if 0 <= i < c.len() && digit_of(c[i]) is Some {
        digits_end(c, i + 1)
    } else {
        i
    }
}

/// The nanoseconds that the digits from `i` to `end` denote, of which the
/// first is worth `unit` nanoseconds; digits past the ninth are dropped.
pub open spec fn nanos_between(c: Seq<char>, i: int, end: int, unit: int) -> int
    decreases end - i,
{
    if i >= end {
        0
    } else {
        digit_of(c[i])->0 * unit + nanos_between(c, i + 1, end, unit / 10)
    }
}

/// The nanoseconds of the fraction that may stand behind the seconds, and
/// where the zone starts.
pub open spec fn fraction_at(c: Seq<char>) -> Option<(int, int)> {
    if c[19] == '.' {
        let end = digits_end(c, 20);
        if end == 20 {
            None
        } else {
            Some((nanos_between(c, 20, end, 100_000_000), end))
        }
    } else {
        Some((0, 19))
    }
}

/// The seconds by which a zone is ahead of UTC, when the zone starts at a
/// position and ends with the text.
pub open spec fn offset_at(c: Seq<char>, i: int) -> Option<int> {
    if c.len() == i + 1 && (c[i] == 'Z' || c[i] == 'z') {
        Some(0)
    } else if c.len() == i + 6 && (c[i] == '+' || c[i] == '-') && c[i + 3] == ':' {
        match (two_at(c, i + 1), two_at(c, i + 4)) {
            (Some(h), Some(m)) => if h <= 23 && m <= 59 {
                Some(
                    if c[i] == '+' {
                        h * 3600 + m * 60
                    } else {
                        -(h * 3600 + m * 60)
                    },
                )
            } else {
                None
            },
            _ => None,
        }
    } else {
        None
    }
}

/// The moment that an RFC 3339 text denotes, if it denotes one.
pub open spec fn rfc3339(c: Seq<char>) -> Option<Timestamp> {
    if c.len() < 20 {
        None
    } else {
        match (
            two_at(c, 0),
            two_at(c, 2),
            two_at(c, 5),
            two_at(c, 8),
            two_at(c, 11),
            two_at(c, 14),
            two_at(c, 17),
        ) {
            (Some(y1), Some(y2), Some(mo), Some(d), Some(h), Some(mi), Some(sec)) => {
                let y = y1 * 100 + y2;
                if c[4] != '-' || c[7] != '-' || (c[10] != 'T' && c[10] != 't') || c[13] != ':'
                    || c[16] != ':' || mo < 1 || 12 < mo || d < 1 || days_in_month(y, mo) < d || 23
                    < h || 59 < mi || 59 < sec {
                    None
                } else {
                    match fraction_at(c) {
                        None => None,
                        Some((nanos, zone)) => match offset_at(c, zone) {
                            None => None,
                            Some(offset) => Some(
                                Timestamp {
                                    secs: (days_from_civil(y, mo, d) * 86400 + h * 3600 + mi * 60
                                        + sec - offset) as i64,
                                    nanos: nanos as u32,
                                },
                            ),
                        },
                    }
                }
            },
            _ => None,
        }
    }
}

fn digit_value(c: char) -> (r: Option<i64>)
    ensures
        r is Some == digit_of(c) is Some,
        r matches Some(v) ==> v == digit_of(c)->0 && 0 <= v <= 9,
{
    if '0' <= c && c <= '9' {
        Some((c as u8 - 48) as i64)
    } else {
        None
    }
}

fn two_digits(c: &Vec<char>, i: usize) -> (r: Option<i64>)
    requires
        i + 1 < c.len(),
    ensures
        r is Some == two_at(c@, i as int) is Some,
        r matches Some(v) ==> v == two_at(c@, i as int)->0 && 0 <= v <= 99,
{
    match (digit_value(c[i]), digit_value(c[i + 1])) {
        (Some(a), Some(b)) => Some(a * 10 + b),
        _ => None,
    }
}

proof fn lemma_digits_end(c: Seq<char>, i: int)
    requires
        0 <= i <= c.len(),
    ensures
        i <= digits_end(c, i) <= c.len(),
        forall|k: int| i <= k < digits_end(c, i) ==> digit_of(#[trigger] c[k]) is Some,
    decreases c.len() - i,
{
    if i < c.len() && digit_of(c[i]) is Some {
        lemma_digits_end(c, i + 1);
    }
}

proof fn lemma_nanos_zero(c: Seq<char>, i: int, end: int)
    ensures
        nanos_between(c, i, end, 0) == 0,
    decreases end - i,
{
    if i < end {
        lemma_nanos_zero(c, i + 1, end);
        assert(digit_of(c[i])->0 * 0 == 0) by (nonlinear_arith);
    }
}

fn fraction(c: &Vec<char>) -> (r: Option<(u32, usize)>)
    requires
        c.len() >= 20,
    ensures
        r is Some == fraction_at(c@) is Some,
        r matches Some(f) ==> fraction_at(c@) == Some((f.0 as int, f.1 as int)) && f.1 <= c.len(),
{
    if c[19] != '.' {
        return Some((0, 19));
    }
    let mut i: usize = 20;
    let mut nanos: u32 = 0;
    let mut unit: u32 = 100_000_000;
    let ghost end = digits_end(c@, 20);
    proof {
        lemma_digits_end(c@, 20);
    }
    while i < c.len()
        invariant_except_break
            20 <= i <= c.len(),
            i <= end <= c.len(),
            end == digits_end(c@, i as int),
            end == digits_end(c@, 20),
            unit <= 100_000_000,
            nanos + 10 * unit <= 1_000_000_000,
            nanos + nanos_between(c@, i as int, end, unit as int) == nanos_between(
                c@,
                20,
                end,
                100_000_000,
            ),
        ensures
            i == end,
            20 <= i <= c.len(),
            end == digits_end(c@, 20),
            nanos == nanos_between(c@, 20, end, 100_000_000),
        decreases c.len() - i,
    {
        match digit_value(c[i]) {
            None => {
                break;
            },
            Some(v) => {
                proof {
                    lemma_digits_end(c@, i + 1);
                    assert(digit_of(c@[i as int])->0 * unit == v * unit);
                    assert(v * unit <= 9 * unit) by (nonlinear_arith)
                        requires
                            0 <= v <= 9,
                            unit >= 0,
                    ;
                    assert(v * unit >= 0) by (nonlinear_arith)
                        requires
                            0 <= v,
                            unit >= 0,
                    ;
                }
                let add: u32 = (v as u32) * unit;
                nanos = nanos + add;
                unit = unit / 10;
                i += 1;
            },
        }
    }
    if i == 20 {
        None
    } else {
        Some((nanos, i))
    }
}

fn zone_offset(c: &Vec<char>, i: usize) -> (r: Option<i64>)
    requires
        i <= c.len(),
    ensures
        r is Some == offset_at(c@, i as int) is Some,
        r matches Some(v) ==> v == offset_at(c@, i as int)->0 && -86400 < v < 86400,
{
    let left: usize = c.len() - i;
    if left == 1 && (c[i] == 'Z' || c[i] == 'z') {
        return Some(0);
    }
    if left == 6 && (c[i] == '+' || c[i] == '-') && c[i + 3] == ':' {
        match (two_digits(c, i + 1), two_digits(c, i + 4)) {
            (Some(h), Some(m)) => {
                if h <= 23 && m <= 59 {
                    let v: i64 = h * 3600 + m * 60;
                    if c[i] == '+' {
                        return Some(v);
                    }
                    return Some(-v);
                }
                None
            },
            _ => None,
        }
    } else {
        None
    }
}

fn month_days(y: i64, m: i64) -> (r: i64)
    requires
        0 <= y,
    ensures
        r == days_in_month(y as int, m as int),
{
    if m == 2 {
        if y % 4 == 0 && (y % 100 != 0 || y % 400 == 0) {
            29
        } else {
            28
        }
    } else if m == 4 || m == 6 || m == 9 || m == 11 {
        30
    } else {
        31
    }
}

fn civil_days(y: i64, m: i64, d: i64) -> (r: i64)
    requires
        0 <= y <= 9999,
        1 <= m <= 12,
        1 <= d <= 31,
    ensures
        r == days_from_civil(y as int, m as int, d as int),
        -800_000 <= r <= 4_000_000,
{
    let mut before: i64 = 0;
    let mut k: i64 = 1;
    while k < m
        invariant
            0 <= y,
            1 <= k <= m <= 12,
            before == days_before_month(y as int, k as int),
            0 <= before <= 31 * (k - 1),
        decreases m - k,
    {
        before = before + month_days(y, k);
        k += 1;
    }
    let leaps: i64 = if y == 0 {
        -1
    } else {
        (y - 1) / 4 - (y - 1) / 100 + (y - 1) / 400
    };
    365 * (y - 1) + leaps - 719162 + before + d - 1
}

/// A span of time: from a moment on, to another moment or without end.
#[derive(Debug, Clone, Copy, PartialEq, Eq, Structural)]
pub struct Interval {
    /// The first moment.
    pub from: Timestamp,
    /// The last moment; `None` when the span has no end.
    pub to: Option<Timestamp>,
}

impl Interval {
    /// Whether a moment lies in the span; both ends belong to it.
    pub open spec fn has(self, t: Timestamp) -> bool {
        self.from.le(t) && (self.to matches Some(end) ==> t.le(end))
    }

    /// The span between two moments; `None` when the second is before the
    /// first.
    pub fn between(from: Timestamp, to: Timestamp) -> (r: Option<Interval>)
        ensures
            r == (if to.lt(from) {
                None
            } else {
                Some(Interval { from, to: Some(to) })
            }),
    {
        if to.before(from) {
            None
        } else {
            Some(Interval { from, to: Some(to) })
        }
    }

    /// The span from a moment on, without end.
    pub fn starting(from: Timestamp) -> (r: Interval)
        ensures
            r == (Interval { from, to: None }),
    {
        Interval { from, to: None }
    }

    /// Whether a moment lies in the span.
    pub fn contains(&self, t: Timestamp) -> (r: bool)
        ensures
            r == self.has(t),
    {
        if t.before(self.from) {
            return false;
        }
        match self.to {
            None => true,
            Some(end) => t.not_after(end),
        }
    }

    /// The span in words.
    pub open spec fn text(self) -> Seq<char> {
        match self.to {
            None => self.from.text() + ".."@,
            Some(end) => self.from.text() + ".."@ + end.text(),
        }
    }

    /// Renders the span.
    pub fn to_string(&self) -> (r: String)
        ensures
            r@ == self.text(),
    {
        let from = self.from.to_string();
        match self.to {
            None => cat2(from.as_str(), ".."),
            Some(end) => {
                let to = end.to_string();
                cat3(from.as_str(), "..", to.as_str())
            },
        }
    }
}

} // verus!
