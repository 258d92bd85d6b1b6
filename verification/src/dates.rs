//! Calendar dates in UTC, in the proleptic Gregorian calendar.

use crate::text;
use vstd::prelude::*;
use vstd::string::*;

verus! {

/// The nanoseconds of one day.
pub const DAY_NS: i128 = 86_400_000_000_000;

/// Whether `y` has a 29 February.
pub open spec fn is_leap(y: int) -> bool {
    y % 4 == 0 && (y % 100 != 0 || y % 400 == 0)
}

/// The days of month `m` of year `y`.
pub open spec fn month_len(y: int, m: int) -> int {
    if m == 2 {
        if is_leap(y) {
            29
        } else {
            28
        }
    } else if m == 4 || m == 6 || m == 9 || m == 11 {
        30
    } else {
        31
    }
}

/// Whether there is such a date.
pub open spec fn is_date(y: int, m: int, d: int) -> bool {
    1 <= m <= 12 && 1 <= d <= month_len(y, m)
}

/// The leap years from the year 1 up to, but without, `y` (before the year 1:
/// the negative of those from `y` on).
pub open spec fn leaps_before(y: int) -> int {
    (y - 1) / 4 - (y - 1) / 100 + (y - 1) / 400
}

/// The days from 1 January 1970 to 1 January of `y`.
pub open spec fn days_to_year(y: int) -> int {
    365 * (y - 1970) + leaps_before(y) - leaps_before(1970)
}

/// The days from 1 January of `y` to the first day of month `m`.
pub open spec fn days_to_month(y: int, m: int) -> int
    decreases m,
{
    if m <= 1 {
        0
    } else {
        days_to_month(y, m - 1) + month_len(y, m - 1)
    }
}

/// The days from 1 January 1970 to a date.
pub open spec fn day_number(y: int, m: int, d: int) -> int {
    days_to_year(y) + days_to_month(y, m) + d - 1
}

/// Whether an instant falls within the years that have a calendar date here.
pub open spec fn in_calendar(ns: int) -> bool {
    day_number(-9999, 1, 1) <= ns / (DAY_NS as int) <= day_number(9999, 12, 31)
}

/// Whether an instant falls on a date.
pub open spec fn falls_on(ns: int, y: int, m: int, d: int) -> bool {
    is_date(y, m, d) && day_number(y, m, d) == ns / (DAY_NS as int)
}

/// The date on which an instant falls; 1 January 1970 if it is out of the
/// calendar.
pub open spec fn date_of(ns: int) -> (int, int, int) {
    if in_calendar(ns) {
        choose|date: (int, int, int)| #[trigger] falls_on(ns, date.0, date.1, date.2)
    } else {
        (1970, 1, 1)
    }
}

/// `time::OffsetDateTime::from_unix_timestamp_nanos`, and the `year`, `month`
/// and `day` of what it makes: the date in UTC on which the instant `ns`
/// nanoseconds after the Unix epoch falls. There is none exactly if the year is
/// not between -9999 and 9999.
#[verifier::external_body]
fn utc_date(ns: i128) -> (r: Option<(i32, u8, u8)>)
    ensures
        r is Some <==> in_calendar(ns as int),
        r matches Some(date) ==> falls_on(ns as int, date.0 as int, date.1 as int, date.2 as int),
{
    match time::OffsetDateTime::from_unix_timestamp_nanos(ns) {
        Ok(dt) => Some((dt.year(), u8::from(dt.month()), dt.day())),
        Err(_) => None,
    }
}

/// `s` without the zeros at its end.
pub open spec fn without_zeros(s: Seq<char>) -> Seq<char>
    decreases s.len(),
{
    if s.len() > 0 && s.last() == '0' {
        without_zeros(s.drop_last())
    } else {
        s
    }
}

/// `n` in base ten, at least two digits wide.
pub open spec fn two_digits(n: int) -> Seq<char> {
    text::zero_padded(text::decimal(n as nat), 2)
}

/// A part of a second, in nanoseconds, behind a decimal point; nothing for
/// none.
pub open spec fn fraction(nanos: int) -> Seq<char> {
    if nanos == 0 {
        Seq::<char>::empty()
    } else {
        "."@ + without_zeros(text::zero_padded(text::decimal(nanos as nat), 9))
    }
}

/// An instant as date and time in UTC, as RFC 3339 writes them. Only the years
/// from 0 to 9999 can be written so.
pub open spec fn instant_text(ns: int) -> Option<Seq<char>> {
    let date = date_of(ns);
    let of_day = ns % (DAY_NS as int);
    let secs = of_day / 1_000_000_000;
    if in_calendar(ns) && date.0 >= 0 {
        Some(
            text::zero_padded(text::decimal(date.0 as nat), 4) + "-"@ + two_digits(date.1) + "-"@
                + two_digits(date.2) + "T"@ + two_digits(secs / 3600) + ":"@ + two_digits(
                secs / 60 % 60,
            ) + ":"@ + two_digits(secs % 60) + fraction(of_day % 1_000_000_000) + "Z"@,
        )
    } else {
        None
    }
}

/// `time::OffsetDateTime::format` with the well-known format `Rfc3339`, on the
/// instant `ns` nanoseconds after the Unix epoch, in UTC: the date, `T`, the
/// time with the nanoseconds but for zeros at their end, and `Z`. There is no
/// text exactly if the year is not between 0 and 9999.
#[verifier::external_body]
fn rfc3339(ns: i128) -> (r: Option<String>)
    ensures
        text::opt_text(r) == instant_text(ns as int),
{
    match time::OffsetDateTime::from_unix_timestamp_nanos(ns) {
        Ok(dt) => dt.format(&time::format_description::well_known::Rfc3339).ok(),
        Err(_) => None,
    }
}

/// An instant as a manifest gives it: as RFC 3339 writes it, or `unknown` if
/// it cannot be written so.
pub fn iso_time(ns: i128) -> (r: String)
    ensures
        r@ == match instant_text(ns as int) {
            Some(t) => t,
            None => "unknown"@,
        },
{
    match rfc3339(ns) {
        Some(t) => t,
        None => "unknown".to_owned(),
    }
}

/// The year, month and day (UTC) on which an instant falls; 1 January 1970 if
/// it is out of the calendar.
pub fn date_parts(ns: i128) -> (r: (i32, u8, u8))
    ensures
        (r.0 as int, r.1 as int, r.2 as int) == date_of(ns as int),
{
    match utc_date(ns) {
        Some(date) => {
            proof {
                let found = (date.0 as int, date.1 as int, date.2 as int);
                assert(falls_on(ns as int, found.0, found.1, found.2));
                let chosen = date_of(ns as int);
                assert(falls_on(ns as int, chosen.0, chosen.1, chosen.2));
                a_day_has_one_date(
                    found.0,
                    found.1,
                    found.2,
                    chosen.0,
                    chosen.1,
                    chosen.2,
                );
            }
            date
        },
        None => (1970, 1, 1),
    }
}

/// The days of month `m` of year `y`.
pub fn month_days(y: u32, m: u32) -> (r: u32)
    ensures
        r == month_len(y as int, m as int),
{
    if m == 2 {
        if y % 4 == 0 && (y % 100 != 0 || y % 400 == 0) {
            29
        } else {
            28
        }
    } else if m == 4 || m == 6 || m == 9 || m == 11 {
        30
    } else {
        31
    }
}

/// The nanoseconds from the Unix epoch to midnight (UTC) of a date.
pub fn midnight_ns(y: u32, m: u32, d: u32) -> (r: i128)
    requires
        y <= 9999,
        is_date(y as int, m as int, d as int),
    ensures
        r == day_number(y as int, m as int, d as int) * DAY_NS,
{
    let mut days: i64 = 0;
    let mut k: u32 = 1;
    while k < m
        invariant
            1 <= k <= m <= 12,
            days == days_to_month(y as int, k as int),
            0 <= days <= 31 * (k - 1),
        decreases m - k,
    {
        days = days + month_days(y, k) as i64;
        k += 1;
    }
    let from_zero: i64 = y as i64 + 399;
    let leaps: i64 = from_zero / 4 - 100 - (from_zero / 100 - 4) + (from_zero / 400 - 1);
    assert(leaps == leaps_before(y as int));
    assert(leaps_before(1970) == 477);
    let total: i64 = 365 * (y as i64 - 1970) + leaps - 477 + days + d as i64 - 1;
    total as i128 * DAY_NS
}

// ---------------------------------------------------------------------------
// Laws
// ---------------------------------------------------------------------------

proof fn lemma_year_step(y: int)
    ensures
        days_to_year(y + 1) == days_to_year(y) + if is_leap(y) {
            366int
        } else {
            365
        },
{
    assert(y / 4 == (y - 1) / 4 + if y % 4 == 0 {
        1int
    } else {
        0
    });
    assert(y / 100 == (y - 1) / 100 + if y % 100 == 0 {
        1int
    } else {
        0
    });
    assert(y / 400 == (y - 1) / 400 + if y % 400 == 0 {
        1int
    } else {
        0
    });
}

proof fn lemma_years_grow(y: int, z: int)
    requires
        y < z,
    ensures
        days_to_year(y + 1) <= days_to_year(z),
    decreases z - y,
{
    if y + 1 < z {
        lemma_years_grow(y + 1, z);
        lemma_year_step(y + 1);
    }
}

proof fn lemma_months_grow(y: int, m: int, n: int)
    requires
        1 <= m < n <= 13,
    ensures
        days_to_month(y, m) + month_len(y, m) <= days_to_month(y, n),
    decreases n - m,
{
    if m + 1 < n {
        lemma_months_grow(y, m, n - 1);
    }
}

proof fn lemma_year_days(y: int)
    ensures
        days_to_month(y, 13) == days_to_year(y + 1) - days_to_year(y),
{
    lemma_year_step(y);
    reveal_with_fuel(days_to_month, 14);
}

proof fn lemma_dates_grow(y: int, m: int, d: int, z: int, n: int, e: int)
    requires
        is_date(y, m, d),
        is_date(z, n, e),
        y < z || (y == z && m < n) || (y == z && m == n && d < e),
    ensures
        day_number(y, m, d) < day_number(z, n, e),
{
    lemma_year_days(y);
    lemma_months_grow(y, m, 13);
    if y < z {
        lemma_years_grow(y, z);
        if n > 1 {
            lemma_months_grow(z, 1, n);
        }
    } else if m < n {
        lemma_months_grow(y, m, n);
    }
}

/// Two dates with the same number of days since the Unix epoch are the same
/// date, so a date found for an instant is the only one.
pub proof fn a_day_has_one_date(y: int, m: int, d: int, z: int, n: int, e: int)
    requires
        is_date(y, m, d),
        is_date(z, n, e),
        day_number(y, m, d) == day_number(z, n, e),
    ensures
        y == z && m == n && d == e,
{
    if y < z || (y == z && m < n) || (y == z && m == n && d < e) {
        lemma_dates_grow(y, m, d, z, n, e);
    } else if z < y || (z == y && n < m) || (z == y && n == m && e < d) {
        lemma_dates_grow(z, n, e, y, m, d);
    }
}

/// Midnight of a date falls on that date.
pub proof fn midnight_falls_on_its_date(y: int, m: int, d: int)
    requires
        is_date(y, m, d),
    ensures
        falls_on(day_number(y, m, d) * DAY_NS, y, m, d),
{
    let n = day_number(y, m, d);
    assert((n * (DAY_NS as int)) / (DAY_NS as int) == n) by (nonlinear_arith)
        requires
            DAY_NS == 86_400_000_000_000,
    ;
}

/// The days are counted without a gap: the Unix epoch is day zero, and the day
/// after a date, be it in the same month, the next month or the next year, has
/// the next number.
pub proof fn days_are_counted_without_a_gap(y: int, m: int, d: int)
    requires
        is_date(y, m, d),
    ensures
        day_number(1970, 1, 1) == 0,
        d < month_len(y, m) ==> day_number(y, m, d + 1) == day_number(y, m, d) + 1,
        d == month_len(y, m) && m < 12 ==> day_number(y, m + 1, 1) == day_number(y, m, d) + 1,
        d == month_len(y, m) && m == 12 ==> day_number(y + 1, 1, 1) == day_number(y, m, d) + 1,
{
    lemma_year_days(y);
}

/// The months have the lengths they have: thirty days in April, June, September
/// and November, twenty-eight or, in a leap year, twenty-nine in February, and
/// thirty-one in the others. Every fourth year is a leap year, but of the
/// hundreds only every fourth.
pub proof fn months_have_their_lengths(y: int, k: int)
    ensures
        month_len(y, 1) == 31 && month_len(y, 3) == 31 && month_len(y, 5) == 31 && month_len(y, 7)
            == 31 && month_len(y, 8) == 31 && month_len(y, 10) == 31 && month_len(y, 12) == 31,
        month_len(y, 4) == 30 && month_len(y, 6) == 30 && month_len(y, 9) == 30 && month_len(y, 11)
            == 30,
        month_len(400 * k, 2) == 29,
        month_len(400 * k + 100, 2) == 28,
        month_len(400 * k + 200, 2) == 28,
        month_len(400 * k + 300, 2) == 28,
        y % 100 != 0 ==> month_len(y, 2) == if y % 4 == 0 {
            29int
        } else {
            28
        },
        is_date(y, k, 1) <==> 1 <= k <= 12,
{
    assert((400 * k) % 4 == 0 && (400 * k) % 400 == 0);
    assert((400 * k + 100) % 100 == 0 && (400 * k + 100) % 400 == 100);
    assert((400 * k + 200) % 100 == 0 && (400 * k + 200) % 400 == 200);
    assert((400 * k + 300) % 100 == 0 && (400 * k + 300) % 400 == 300);
}

/// The days of the years from 0 to 9999 fit a count of nanoseconds in 128 bits.
pub proof fn day_numbers_are_bounded(y: int, m: int, d: int)
    requires
        0 <= y <= 9999,
        is_date(y, m, d),
    ensures
        -800_000 <= day_number(y, m, d) <= 4_000_000,
{
    lemma_year_days(y);
    if m > 1 {
        lemma_months_grow(y, 1, m);
    }
    lemma_months_grow(y, m, 13);
    lemma_year_step(y);
}

/// An instant falls on at most one date, the one that its day has; one day
/// later it falls on the day after.
pub proof fn a_day_later_is_the_next_day(ns: int, y: int, m: int, d: int)
    requires
        falls_on(ns, y, m, d),
        d < month_len(y, m),
    ensures
        falls_on(ns + 86_400_000_000_000, y, m, d + 1),
{
    days_are_counted_without_a_gap(y, m, d);
    assert((ns + 86_400_000_000_000) / 86_400_000_000_000 == ns / 86_400_000_000_000 + 1);
}

/// The date found for an instant of the calendar is the date on which it
/// falls.
pub proof fn the_date_of_an_instant_is_where_it_falls(ns: int, y: int, m: int, d: int)
    requires
        falls_on(ns, y, m, d),
        in_calendar(ns),
    ensures
        date_of(ns) == (y, m, d),
{
    let chosen = date_of(ns);
    assert(falls_on(ns, chosen.0, chosen.1, chosen.2)) by {
        let it = (y, m, d);
        assert(falls_on(ns, it.0, it.1, it.2));
    }
    a_day_has_one_date(chosen.0, chosen.1, chosen.2, y, m, d);
}

/// The calendar reaches from the first day of the year -9999 to the last day of
/// the year 9999.
pub proof fn the_calendar_holds_every_year_of_four_digits(ns: int, y: int, m: int, d: int)
    requires
        falls_on(ns, y, m, d),
    ensures
        in_calendar(ns) <==> -9999 <= y <= 9999,
{
    if y < -9999 {
        lemma_dates_grow(y, m, d, -9999, 1, 1);
    } else if y == -9999 && (m > 1 || d > 1) {
        lemma_dates_grow(-9999, 1, 1, y, m, d);
    } else if y > -9999 {
        lemma_dates_grow(-9999, 1, 1, y, m, d);
    }
    if y > 9999 {
        lemma_dates_grow(9999, 12, 31, y, m, d);
    } else if y == 9999 && (m < 12 || d < 31) {
        lemma_dates_grow(y, m, d, 9999, 12, 31);
    } else if y < 9999 {
        lemma_dates_grow(y, m, d, 9999, 12, 31);
    }
}

proof fn lemma_zeros_at_the_end(s: Seq<char>)
    ensures
        without_zeros(s).len() <= s.len(),
        s == without_zeros(s) + Seq::new((s.len() - without_zeros(s).len()) as nat, |i: int| '0'),
        without_zeros(s).len() > 0 ==> without_zeros(s).last() != '0',
    decreases s.len(),
{
    if s.len() > 0 && s.last() == '0' {
        let front = s.drop_last();
        lemma_zeros_at_the_end(front);
        let w = without_zeros(front);
        let k = (front.len() - w.len()) as nat;
        assert(s == front.push('0'));
        assert(Seq::new(k + 1, |i: int| '0') == Seq::new(k, |i: int| '0').push('0'));
        assert(w + Seq::new(k, |i: int| '0').push('0') == (w + Seq::new(k, |i: int| '0')).push(
            '0',
        ));
    } else {
        assert(Seq::new(0, |i: int| '0') == Seq::<char>::empty());
        assert(s + Seq::<char>::empty() == s);
    }
}

/// An instant is written as its date and its time of day: year, month, day,
/// hour, minute and second in four and two digits each, then, unless it is a
/// whole second, the nanoseconds in nine digits but for zeros at their end. The
/// instants of other years than 0 to 9999 are not written.
#[verifier::rlimit(40)]
pub proof fn instants_are_written_as_date_and_time(
    y: int,
    m: int,
    d: int,
    h: int,
    min: int,
    s: int,
    n: int,
)
    requires
        is_date(y, m, d),
        0 <= h < 24,
        0 <= min < 60,
        0 <= s < 60,
        0 <= n < 1_000_000_000,
    ensures
        ({
            let ns = day_number(y, m, d) * 86_400_000_000_000 + ((h * 60 + min) * 60 + s)
                * 1_000_000_000 + n;
            let of = |a: int, b: int| text::digits_value(instant_text(ns)->0.subrange(a, b));
            let t = instant_text(ns)->0;
            &&& instant_text(ns) is Some <==> 0 <= y <= 9999
            &&& instant_text(ns) is Some ==> {
                &&& t.len() >= 20
                &&& of(0, 4) == y && of(5, 7) == m && of(8, 10) == d
                &&& of(11, 13) == h && of(14, 16) == min && of(17, 19) == s
                &&& t[4] == '-' && t[7] == '-' && t[10] == 'T' && t[13] == ':' && t[16] == ':'
                &&& t.last() == 'Z'
                &&& n == 0 ==> t.len() == 20
                &&& n > 0 ==> {
                    let part = t.subrange(20, t.len() - 1);
                    let whole = text::zero_padded(text::decimal(n as nat), 9);
                    &&& t[19] == '.'
                    &&& part.len() > 0 ==> part.last() != '0'
                    &&& part.len() <= whole.len()
                    &&& part + Seq::new((whole.len() - part.len()) as nat, |i: int| '0') == whole
                }
            }
        }),
{
    let secs = (h * 60 + min) * 60 + s;
    let of_day = secs * 1_000_000_000 + n;
    let day = day_number(y, m, d);
    let ns = day * 86_400_000_000_000 + of_day;
    assert(0 <= of_day < 86_400_000_000_000);
    assert(ns / 86_400_000_000_000 == day && ns % 86_400_000_000_000 == of_day) by (nonlinear_arith)
        requires
            ns == day * 86_400_000_000_000 + of_day,
            0 <= of_day < 86_400_000_000_000,
    ;
    assert(falls_on(ns, y, m, d));
    the_calendar_holds_every_year_of_four_digits(ns, y, m, d);
    if in_calendar(ns) {
        the_date_of_an_instant_is_where_it_falls(ns, y, m, d);
    }
    if 0 <= y <= 9999 {
        assert(of_day / 1_000_000_000 == secs && of_day % 1_000_000_000 == n);
        assert(secs / 3600 == h && secs / 60 % 60 == min && secs % 60 == s);
        assert(d <= 31);
        text::padding_keeps_the_number(y as nat, 4);
        text::padding_keeps_the_number(m as nat, 2);
        text::padding_keeps_the_number(d as nat, 2);
        text::padding_keeps_the_number(h as nat, 2);
        text::padding_keeps_the_number(min as nat, 2);
        text::padding_keeps_the_number(s as nat, 2);
        let yy = text::zero_padded(text::decimal(y as nat), 4);
        let mm = two_digits(m);
        let dd = two_digits(d);
        let hh = two_digits(h);
        let nn = two_digits(min);
        let ss = two_digits(s);
        assert(yy.len() == 4 && mm.len() == 2 && dd.len() == 2 && hh.len() == 2 && nn.len() == 2
            && ss.len() == 2);
        reveal_strlit("-");
        reveal_strlit("T");
        reveal_strlit(":");
        reveal_strlit("Z");
        reveal_strlit(".");
        let f = fraction(n);
        let t = instant_text(ns)->0;
        assert(t == yy + "-"@ + mm + "-"@ + dd + "T"@ + hh + ":"@ + nn + ":"@ + ss + f + "Z"@);
        assert(t.subrange(0, 4) == yy);
        assert(t.subrange(5, 7) == mm);
        assert(t.subrange(8, 10) == dd);
        assert(t.subrange(11, 13) == hh);
        assert(t.subrange(14, 16) == nn);
        assert(t.subrange(17, 19) == ss);
        if n > 0 {
            let p = text::zero_padded(text::decimal(n as nat), 9);
            let w = without_zeros(p);
            lemma_zeros_at_the_end(p);
            assert(f == "."@ + w);
            assert(t.subrange(20, t.len() - 1) == w);
        }
    }
}

} // verus!
