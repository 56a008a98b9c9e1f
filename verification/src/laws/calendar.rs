//! What dates and moments in text promise.

use vstd::prelude::*;

use crate::time::{
    days_before_month, days_from_civil, days_in_month, digit_of, digits_end, is_leap, nanos_between,
    offset_at, rfc3339, two_at, Timestamp,
};

verus! {

/// A year has a 29th of February exactly when it is divisible by four, and not
/// by a hundred unless by four hundred; April, June, September and November have
/// 30 days, the others 31.
pub proof fn months_have_their_days(y: int, m: int)
    requires
        1 <= m <= 12,
    ensures
        m == 2 ==> (days_in_month(y, m) == 29 <==> y % 4 == 0 && (y % 100 != 0 || y % 400 == 0)),
        m == 2 ==> days_in_month(y, m) == 28 || days_in_month(y, m) == 29,
        m == 4 || m == 6 || m == 9 || m == 11 ==> days_in_month(y, m) == 30,
        m == 1 || m == 3 || m == 5 || m == 7 || m == 8 || m == 10 || m == 12 ==> days_in_month(y, m)
            == 31,
{
}

/// Days are counted one by one: the next day of a month is one later, the first
/// of a month one after the last of the month before, new year one after the
/// last of December; and the count starts with 1970.
pub proof fn days_follow_one_another(y: int, m: int, d: int)
    requires
        1 <= m <= 12,
    ensures
        days_from_civil(y, m, d + 1) == days_from_civil(y, m, d) + 1,
        m < 12 ==> days_from_civil(y, m + 1, 1) == days_from_civil(y, m, days_in_month(y, m)) + 1,
        days_from_civil(y + 1, 1, 1) == days_from_civil(y, 12, 31) + 1,
        days_from_civil(1970, 1, 1) == 0,
{
    lemma_year(y);
    lemma_leaps(y);
    assert(days_before_month(y + 1, 1) == 0);
    assert(days_before_month(1970, 1) == 0);
}

proof fn lemma_year(y: int)
    ensures
        days_before_month(y, 12) == 334 + if is_leap(y) {
            1int
        } else {
            0
        },
{
    reveal_with_fuel(days_before_month, 13);
}

proof fn lemma_leaps(y: int)
    ensures
        y / 4 - y / 100 + y / 400 == (y - 1) / 4 - (y - 1) / 100 + (y - 1) / 400 + if is_leap(y) {
            1int
        } else {
            0
        },
{
    lemma_step(y, 4);
    lemma_step(y, 100);
    lemma_step(y, 400);
    lemma_centuries(y);
    lemma_fourths(y);
    lemma_tally(
        (y / 4, (y - 1) / 4),
        (y / 100, (y - 1) / 100),
        (y / 400, (y - 1) / 400),
        y % 4 == 0,
        y % 100 == 0,
        y % 400 == 0,
    );
}

proof fn lemma_centuries(y: int)
    ensures
        y % 400 == 0 ==> y % 100 == 0,
{
}

proof fn lemma_fourths(y: int)
    ensures
        y % 100 == 0 ==> y % 4 == 0,
{
}

proof fn lemma_tally(
    a: (int, int),
    b: (int, int),
    c: (int, int),
    fourth: bool,
    century: bool,
    fourth_century: bool,
)
    requires
        a.0 == a.1 + if fourth {
            1int
        } else {
            0
        },
        b.0 == b.1 + if century {
            1int
        } else {
            0
        },
        c.0 == c.1 + if fourth_century {
            1int
        } else {
            0
        },
        fourth_century ==> century,
        century ==> fourth,
    ensures
        a.0 - b.0 + c.0 == a.1 - b.1 + c.1 + if fourth && !century || fourth_century {
            1int
        } else {
            0
        },
{
}

proof fn lemma_step(y: int, n: int)
    requires
        n == 4 || n == 100 || n == 400,
    ensures
        y / n == (y - 1) / n + if y % n == 0 {
            1int
        } else {
            0
        },
{
}

/// Whether the two characters from a position on are the digits of a number.
pub open spec fn reads(c: Seq<char>, i: int, n: int) -> bool {
    '0' <= c[i] <= '9' && '0' <= c[i + 1] <= '9' && n == (c[i] as int - '0' as int) * 10 + (
    c[i + 1] as int - '0' as int)
}

proof fn lemma_two(c: Seq<char>, i: int, n: int)
    ensures
        two_at(c, i) == Some(n) <==> reads(c, i, n),
{
}

/// A text in UTC without a fraction denotes a moment exactly when its parts are
/// a date of the calendar and a time of the day, and then the one that lies the
/// days and the seconds of the day after the start of 1970. A zone ahead of UTC
/// makes it earlier by as much.
pub proof fn texts_denote_their_moment(
    c: Seq<char>,
    y1: int,
    y2: int,
    mo: int,
    d: int,
    h: int,
    mi: int,
    s: int,
)
    requires
        c.len() == 20,
        c[4] == '-' && c[7] == '-' && c[10] == 'T' && c[13] == ':' && c[16] == ':' && c[19] == 'Z',
        reads(c, 0, y1) && reads(c, 2, y2) && reads(c, 5, mo) && reads(c, 8, d),
        reads(c, 11, h) && reads(c, 14, mi) && reads(c, 17, s),
    ensures
        rfc3339(c) is Some <==> 1 <= mo <= 12 && 1 <= d <= days_in_month(y1 * 100 + y2, mo) && h
            <= 23 && mi <= 59 && s <= 59,
        rfc3339(c) matches Some(t) ==> t.nanos == 0 && t.secs == days_from_civil(
            y1 * 100 + y2,
            mo,
            d,
        ) * 86400 + h * 3600 + mi * 60 + s,
{
    lemma_two(c, 0, y1);
    lemma_two(c, 2, y2);
    lemma_two(c, 5, mo);
    lemma_two(c, 8, d);
    lemma_two(c, 11, h);
    lemma_two(c, 14, mi);
    lemma_two(c, 17, s);
    if rfc3339(c) is Some {
        lemma_range(y1 * 100 + y2, mo, d);
    }
}

proof fn lemma_range(y: int, m: int, d: int)
    requires
        0 <= y <= 9999,
        1 <= m <= 12,
        1 <= d <= 31,
    ensures
        -4_000_000 <= days_from_civil(y, m, d) <= 4_000_000,
{
    reveal_with_fuel(days_before_month, 13);
}

/// A zone is ahead of UTC by its hours and minutes behind a plus and behind it
/// by them behind a minus, and none by the letter for UTC.
pub proof fn zones_shift_by_hours_and_minutes(c: Seq<char>, i: int, h: int, m: int)
    requires
        0 <= i,
        c.len() == i + 6,
        c[i + 3] == ':',
        reads(c, i + 1, h) && reads(c, i + 4, m),
        h <= 23 && m <= 59,
    ensures
        c[i] == '+' ==> offset_at(c, i) == Some(h * 3600 + m * 60),
        c[i] == '-' ==> offset_at(c, i) == Some(-(h * 3600 + m * 60)),
{
    lemma_two(c, i + 1, h);
    lemma_two(c, i + 4, m);
}

/// What a digit of a fraction is worth in nanoseconds, by its place behind the
/// point; from the tenth on it is worth nothing.
pub open spec fn worth(place: int) -> int {
    if place == 0 {
        100_000_000
    } else if place == 1 {
        10_000_000
    } else if place == 2 {
        1_000_000
    } else if place == 3 {
        100_000
    } else if place == 4 {
        10_000
    } else if place == 5 {
        1_000
    } else if place == 6 {
        100
    } else if place == 7 {
        10
    } else if place == 8 {
        1
    } else {
        0
    }
}

proof fn lemma_fraction(c: Seq<char>, i: int, end: int, place: int)
    requires
        i <= end,
        0 <= place,
    ensures
        nanos_between(c, i, end + 1, worth(place)) == nanos_between(c, i, end, worth(place))
            + digit_of(c[end])->0 * worth(place + end - i),
    decreases end - i,
{
    let unit = worth(place);
    assert(unit / 10 == worth(place + 1));
    if i < end {
        lemma_fraction(c, i + 1, end, place + 1);
    } else {
        assert(nanos_between(c, i, end, unit) == 0);
        assert(nanos_between(c, i + 1, end + 1, unit / 10) == 0);
    }
}

/// The digits of a fraction count tenths, hundredths and so on of a second: each
/// further digit adds what it is worth at its place.
pub proof fn fractions_count_by_their_places(c: Seq<char>, k: int)
    requires
        0 <= k,
    ensures
        nanos_between(c, 20, 20, 100_000_000) == 0,
        nanos_between(c, 20, 20 + k + 1, 100_000_000) == nanos_between(c, 20, 20 + k, 100_000_000)
            + digit_of(c[20 + k])->0 * worth(k),
{
    lemma_fraction(c, 20, 20 + k, 0);
}

/// The seconds from one moment to another are those between their whole seconds,
/// or the nearest number that the type holds.
pub proof fn seconds_are_counted_between_moments(a: Timestamp, b: Timestamp)
    ensures
        -9_223_372_036_854_775_808 <= b.secs - a.secs <= 9_223_372_036_854_775_807
            ==> b.spec_secs_since(a) == b.secs - a.secs,
        b.secs - a.secs > 9_223_372_036_854_775_807 ==> b.spec_secs_since(a)
            == 9_223_372_036_854_775_807,
        b.secs - a.secs < -9_223_372_036_854_775_808 ==> b.spec_secs_since(a)
            == -9_223_372_036_854_775_808,
{
}

/// A run of digits ends at the first character that is none, or with the text.
pub proof fn digits_end_at_the_first_other_character(c: Seq<char>, i: int)
    requires
        0 <= i <= c.len(),
    ensures
        i <= digits_end(c, i) <= c.len(),
        forall|k: int|
            i <= k < digits_end(c, i) ==> '0' <= #[trigger] c[k] <= '9' && digit_of(c[k]) == Some(
                c[k] as int - '0' as int,
            ),
        digits_end(c, i) < c.len() ==> !('0' <= c[digits_end(c, i)] <= '9'),
    decreases c.len() - i,
{
    if i < c.len() && digit_of(c[i]) is Some {
        digits_end_at_the_first_other_character(c, i + 1);
    }
}

} // verus!
