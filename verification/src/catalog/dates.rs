//! Civil-calendar dates (UTC, day precision): reading a date as seconds since
//! 1970-01-01 and reading ages such as "3 weeks ago".

use vstd::prelude::*;

use crate::numeral::{all_digits, digits_value, parse_signed, read_digits, read_signed};
use crate::text::{
    ascii_lower, chars_of, find_from, lowercase, next_word, part, same_chars, skip_space, string_of,
    to_lowercase, trim, trimmed, word_end,
};

verus! {

/// Seconds in a day.
pub const DAY: i64 = 86_400;

// ---------------------------------------------------------------------------
// The calendar
// ---------------------------------------------------------------------------

pub open spec fn is_leap(y: int) -> bool {
    (y % 4 == 0 && y % 100 != 0) || y % 400 == 0
}

pub open spec fn year_days(y: int) -> int {
    if is_leap(y) {
        366
    } else {
        365
    }
}

pub open spec fn month_days(y: int, m: int) -> int {
    if m == 2 {
        if is_leap(y) {
            29
        } else {
            28
        }
    } else if m == 4 || m == 6 || m == 9 || m == 11 {
        30
    } else {
        31
    }
}

/// Days from 1970-01-01 to the first day of year `y`.
pub open spec fn days_before_year(y: int) -> int
    decreases y,
{
    if y <= 1970 {
        0
    } else {
        days_before_year(y - 1) + year_days(y - 1)
    }
}

/// Days from the first day of year `y` to the first day of its month `m`.
pub open spec fn days_before_month(y: int, m: int) -> int
    decreases m,
{
    if m <= 1 {
        0
    } else {
        days_before_month(y, m - 1) + month_days(y, m - 1)
    }
}

/// A day of the calendar in the years 1970 to 9999.
pub open spec fn is_date(y: int, m: int, d: int) -> bool {
    &&& 1970 <= y <= 9999
    &&& 1 <= m <= 12
    &&& 1 <= d <= month_days(y, m)
}

/// Seconds from 1970-01-01 to the start of the day.
pub open spec fn epoch_of(y: int, m: int, d: int) -> int {
    (days_before_year(y) + days_before_month(y, m) + d - 1) * 86_400
}

/// The start of the day, if it is one.
pub open spec fn date_epoch(y: int, m: int, d: int) -> Option<int> {
    if is_date(y, m, d) {
        Some(epoch_of(y, m, d))
    } else {
        None
    }
}

/// Leap years in 1..=n.
pub open spec fn leaps(n: int) -> int {
    n / 4 - n / 100 + n / 400
}

pub proof fn lemma_days_before_year(y: int)
    requires
        1970 <= y,
    ensures
        days_before_year(y) == 365 * (y - 1970) + leaps(y - 1) - leaps(1969),
    decreases y,
{
    if y > 1970 {
        lemma_days_before_year(y - 1);
        assert(leaps(y - 1) - leaps(y - 2) == if is_leap(y - 1) {
            1int
        } else {
            0int
        });
    }
}

pub proof fn lemma_days_before_month(y: int, m: int)
    requires
        1 <= m <= 12,
    ensures
        days_before_month(y, m) == (if m <= 2 {
            31 * (m - 1)
        } else {
            (153 * (m - 3) + 2) / 5 + 59 + if is_leap(y) {
                1int
            } else {
                0int
            }
        }),
{
    reveal_with_fuel(days_before_month, 13);
}

/// Counting years from March: the days up to the first of month `m`.
pub proof fn lemma_march_years(y: int, m: int)
    requires
        1970 <= y <= 9999,
        1 <= m <= 12,
    ensures
        ({
            let ym = if m <= 2 {
                y - 1
            } else {
                y
            };
            let yoe = ym - ym / 400 * 400;
            days_before_year(y) + days_before_month(y, m) == ym / 400 * 146_097 + yoe * 365 + yoe
                / 4 - yoe / 100 + (153 * ((m + 9) % 12) + 2) / 5 - 719_468
        }),
{
    let ym = if m <= 2 {
        y - 1
    } else {
        y
    };
    let era = ym / 400;
    let yoe = ym - era * 400;
    lemma_days_before_year(y);
    lemma_days_before_month(y, m);
    assert(ym / 4 == era * 100 + yoe / 4);
    assert(ym / 100 == era * 4 + yoe / 100);
    assert(leaps(ym) == era * 97 + yoe / 4 - yoe / 100);
    assert(leaps(1969) == 477);
    if m > 2 {
        assert((m + 9) % 12 == m - 3);
        assert(leaps(y) == leaps(y - 1) + if is_leap(y) {
            1int
        } else {
            0int
        });
    } else {
        assert((m + 9) % 12 == m + 9);
        assert(m == 1 || m == 2);
    }
}

/// Start of the day in seconds since 1970-01-01. `None` for a month or day
/// that the calendar lacks, and for years outside 1970..=9999.
pub fn ymd_to_epoch(y: i64, m: u32, d: u32) -> (r: Option<i64>)
    ensures
        match r {
            Some(e) => date_epoch(y as int, m as int, d as int) == Some(e as int),
            None => date_epoch(y as int, m as int, d as int) is None,
        },
{
    if y < 1970 || y > 9999 {
        return None;
    }
    if m < 1 || m > 12 {
        return None;
    }
    let leap = (y % 4 == 0 && y % 100 != 0) || y % 400 == 0;
    let dim: u32 = if m == 2 {
        if leap {
            29
        } else {
            28
        }
    } else if m == 4 || m == 6 || m == 9 || m == 11 {
        30
    } else {
        31
    };
    if d < 1 || d > dim {
        return None;
    }
    // Count years from March, so that the leap day comes last.
    let ym: i64 = if m <= 2 {
        y - 1
    } else {
        y
    };
    let era: i64 = ym / 400;
    let yoe: i64 = ym - era * 400;
    let mp: i64 = (m as i64 + 9) % 12;
    let doy: i64 = (153 * mp + 2) / 5 + d as i64 - 1;
    let doe: i64 = yoe * 365 + yoe / 4 - yoe / 100 + doy;
    proof {
        lemma_march_years(y as int, m as int);
        assert(0 <= mp <= 11);
        assert(0 <= (153 * mp + 2) / 5 <= 337);
        assert(0 <= yoe < 400);
        assert(4 <= era <= 24);
    }
    Some((era * 146_097 + doe - 719_468) * DAY)
}

/// Two days of the calendar come in the order of their epochs.
pub proof fn later_day_later_epoch(y1: int, m1: int, d1: int, y2: int, m2: int, d2: int)
    requires
        is_date(y1, m1, d1),
        is_date(y2, m2, d2),
        y1 < y2 || (y1 == y2 && (m1 < m2 || (m1 == m2 && d1 < d2))),
    ensures
        epoch_of(y1, m1, d1) < epoch_of(y2, m2, d2),
{
    lemma_days_before_month(y1, m1);
    lemma_days_before_month(y2, m2);
    lemma_days_before_month(y1, 12);
    if y1 < y2 {
        lemma_days_before_year(y1);
        lemma_days_before_year(y1 + 1);
        lemma_days_before_year(y2);
        lemma_month_order(y1, m1, 12);
        assert(leaps(y2 - 1) >= leaps(y1)) by {
            assert((y2 - 1) / 4 - (y2 - 1) / 100 >= y1 / 4 - y1 / 100);
        }
        assert(days_before_year(y2) >= days_before_year(y1 + 1));
        assert(days_before_year(y1 + 1) == days_before_year(y1) + year_days(y1));
    } else if m1 < m2 {
        lemma_month_order(y1, m1, m2);
    }
}

proof fn lemma_month_order(y: int, m1: int, m2: int)
    requires
        1 <= m1 <= m2 <= 12,
    ensures
        m1 < m2 ==> days_before_month(y, m1) + month_days(y, m1) <= days_before_month(y, m2),
        days_before_month(y, m1) + month_days(y, m1) <= days_before_month(y, m2) + month_days(
            y,
            m2,
        ),
    decreases m2 - m1,
{
    if m1 < m2 {
        lemma_month_order(y, m1, m2 - 1);
    }
}

/// The day after a day starts 86,400 seconds later: within a month, from one
/// month to the next, and from one year to the next.
pub proof fn next_day_is_one_day_later(y: int, m: int, d: int)
    requires
        is_date(y, m, d),
    ensures
        d < month_days(y, m) ==> epoch_of(y, m, d + 1) == epoch_of(y, m, d) + 86_400,
        d == month_days(y, m) && m < 12 ==> epoch_of(y, m + 1, 1) == epoch_of(y, m, d) + 86_400,
        d == 31 && m == 12 ==> epoch_of(y + 1, 1, 1) == epoch_of(y, m, d) + 86_400,
{
    lemma_days_before_month(y, m);
    assert(days_before_month(y + 1, 1) == 0);
}

/// The epoch of a day of the calendar is the start of a day between
/// 1970-01-01 and 9999-12-31.
pub proof fn epoch_range(y: int, m: int, d: int)
    requires
        is_date(y, m, d),
    ensures
        0 <= epoch_of(y, m, d) <= 253_402_214_400,
        epoch_of(y, m, d) % 86_400 == 0,
        epoch_of(1970, 1, 1) == 0,
        epoch_of(9999, 12, 31) == 253_402_214_400,
{
    lemma_days_before_month(9999, 12);
    lemma_days_before_year(9999);
    lemma_days_before_month(1970, 1);
    if (y, m, d) != (9999int, 12int, 31int) {
        later_day_later_epoch(y, m, d, 9999, 12, 31);
    }
    if (y, m, d) != (1970int, 1int, 1int) {
        later_day_later_epoch(1970, 1, 1, y, m, d);
    }
}

/// The months fill the year.
pub proof fn months_fill_the_year(y: int)
    ensures
        days_before_month(y, 12) + month_days(y, 12) == year_days(y),
{
    lemma_days_before_month(y, 12);
}

/// The calendar repeats after 400 years, which are 146097 days.
pub proof fn calendar_repeats_after_400_years(y: int, m: int, d: int)
    requires
        1970 <= y,
        1 <= m <= 12,
    ensures
        is_leap(y + 400) == is_leap(y),
        epoch_of(y + 400, m, d) == epoch_of(y, m, d) + 146_097 * 86_400,
{
    assert((y + 400) % 4 == y % 4 && (y + 400) % 100 == y % 100 && (y + 400) % 400 == y % 400);
    assert(is_leap(y + 400) == is_leap(y));
    let n = y - 1;
    assert((n + 400) / 4 == n / 4 + 100 && (n + 400) / 100 == n / 100 + 4 && (n + 400) / 400 == n
        / 400 + 1);
    assert(leaps(n + 400) == leaps(n) + 97);
    let (a, b) = (days_before_year(y), days_before_year(y + 400));
    assert(b == a + 146_097) by {
        lemma_days_before_year(y);
        lemma_days_before_year(y + 400);
    }
    let (p, q) = (days_before_month(y, m), days_before_month(y + 400, m));
    assert(p == q) by {
        lemma_days_before_month(y, m);
        lemma_days_before_month(y + 400, m);
    }
}

// ---------------------------------------------------------------------------
// Dates in text
// ---------------------------------------------------------------------------

/// The first of the month that `YYYY-MM` names: four digits, a dash, two
/// digits.
pub open spec fn year_month(s: Seq<char>) -> Option<int> {
    if s.len() == 7 && s[4] == '-' && all_digits(s.subrange(0, 4)) && all_digits(
        s.subrange(5, 7),
    ) {
        date_epoch(
            digits_value(s.subrange(0, 4)) as int,
            digits_value(s.subrange(5, 7)) as int,
            1,
        )
    } else {
        None
    }
}

/// `"YYYY-MM"` as the epoch of the first of that month.
pub fn parse_year_month(s: &str) -> (r: Option<i64>)
    ensures
        match r {
            Some(e) => year_month(s@) == Some(e as int),
            None => year_month(s@) is None,
        },
{
    let cs = chars_of(s);
    if cs.len() != 7 || cs[4] != '-' {
        return None;
    }
    let y: u64 = match read_digits(&cs, 0, 4, 9999) {
        Some(y) => y,
        None => {
            return None;
        },
    };
    let m: u64 = match read_digits(&cs, 5, 7, 12) {
        Some(m) => m,
        None => {
            return None;
        },
    };
    ymd_to_epoch(y as i64, m as u32, 1)
}

/// The day that a text beginning with `YYYY-MM-DD` names, with a digit in every
/// place of one.
pub open spec fn iso_date(s: Seq<char>) -> Option<int> {
    if s.len() >= 10 && s[4] == '-' && s[7] == '-' && all_digits(s.subrange(0, 4)) && all_digits(
        s.subrange(5, 7),
    ) && all_digits(s.subrange(8, 10)) {
        date_epoch(
            digits_value(s.subrange(0, 4)) as int,
            digits_value(s.subrange(5, 7)) as int,
            digits_value(s.subrange(8, 10)) as int,
        )
    } else {
        None
    }
}

/// A month alone stands for its first day, and what follows a date does not
/// matter.
pub proof fn month_is_its_first_day(s: Seq<char>, rest: Seq<char>)
    ensures
        s.len() == 7 ==> year_month(s) == iso_date(s + "-01"@),
        s.len() == 10 ==> iso_date(s + rest) == iso_date(s),
{
    reveal_strlit("-01");
    if s.len() == 7 {
        let t = s + "-01"@;
        assert(t.subrange(0, 4) =~= s.subrange(0, 4));
        assert(t.subrange(5, 7) =~= s.subrange(5, 7));
        let d = t.subrange(8, 10);
        assert(d =~= seq!['0', '1']);
        assert(d.drop_last() =~= seq!['0']);
        assert(d.drop_last().drop_last() =~= Seq::empty());
        reveal_with_fuel(digits_value, 3);
        assert(digits_value(d) == 1);
        assert(all_digits(d));
    }
    if s.len() == 10 {
        let t = s + rest;
        assert(t.subrange(0, 4) =~= s.subrange(0, 4));
        assert(t.subrange(5, 7) =~= s.subrange(5, 7));
        assert(t.subrange(8, 10) =~= s.subrange(8, 10));
    }
}

/// ISO-8601 day prefix (`"2024-03-07T…"` or `"2024-03-07"`) as an epoch.
pub fn parse_iso_date_prefix(s: &str) -> (r: Option<i64>)
    ensures
        match r {
            Some(e) => iso_date(s@) == Some(e as int),
            None => iso_date(s@) is None,
        },
{
    let cs = chars_of(s);
    if cs.len() < 10 || cs[4] != '-' || cs[7] != '-' {
        return None;
    }
    let y: u64 = match read_digits(&cs, 0, 4, 9999) {
        Some(y) => y,
        None => {
            return None;
        },
    };
    let m: u64 = match read_digits(&cs, 5, 7, 12) {
        Some(m) => m,
        None => {
            return None;
        },
    };
    let d: u64 = match read_digits(&cs, 8, 10, 31) {
        Some(d) => d,
        None => {
            return None;
        },
    };
    ymd_to_epoch(y as i64, m as u32, d as u32)
}

// ---------------------------------------------------------------------------
// Ages
// ---------------------------------------------------------------------------

/// `unit` without an `s` at its end.
pub open spec fn singular(unit: Seq<char>) -> Seq<char> {
    if unit.len() > 0 && unit.last() == 's' {
        unit.drop_last()
    } else {
        unit
    }
}

/// Days in a unit of time: a month counts 30, a year 365, and what is shorter
/// than a day counts none.
pub open spec fn unit_days(unit: Seq<char>) -> Option<int> {
    if unit == "day"@ {
        Some(1)
    } else if unit == "week"@ {
        Some(7)
    } else if unit == "month"@ {
        Some(30)
    } else if unit == "year"@ {
        Some(365)
    } else if unit == "hour"@ || unit == "minute"@ || unit == "second"@ {
        Some(0)
    } else {
        None
    }
}

/// The moment that an age in lower case, `N unit ago` or `yesterday`, names.
/// What follows `ago` does not count. `None` also where the seconds do not fit
/// an `i64`.
pub open spec fn age(s: Seq<char>, now: int) -> Option<int> {
    if s == "yesterday"@ {
        if now - 86_400 >= i64::MIN {
            Some(now - 86_400)
        } else {
            None
        }
    } else {
        match next_word(s) {
            None => None,
            Some((count, s1)) => match next_word(s1) {
                None => None,
                Some((unit, s2)) => match next_word(s2) {
                    None => None,
                    Some((last, _)) => match (parse_signed(count), unit_days(singular(unit))) {
                        (Some(n), Some(days)) => {
                            let secs = n * days * 86_400;
                            if n >= 0 && last == "ago"@ && secs <= i64::MAX && now - secs
                                >= i64::MIN {
                                Some(now - secs)
                            } else {
                                None
                            }
                        },
                        _ => None,
                    },
                },
            },
        }
    }
}

/// The first three words of a text.
pub open spec fn first_words(s: Seq<char>) -> Option<(Seq<char>, Seq<char>, Seq<char>)> {
    match next_word(s) {
        None => None,
        Some((a, s1)) => match next_word(s1) {
            None => None,
            Some((b, s2)) => match next_word(s2) {
                None => None,
                Some((c, _)) => Some((a, b, c)),
            },
        },
    }
}

/// `n` units ago, in the singular or the plural.
pub open spec fn says_ago(s: Seq<char>, n: int, unit: Seq<char>) -> bool {
    &&& s != "yesterday"@
    &&& first_words(s) matches Some((count, u, last)) && parse_signed(count) == Some(n) && (u == unit
        || u == unit.push('s')) && last == "ago"@
}

proof fn lemma_units()
    ensures
        singular("day"@) == "day"@ && singular("day"@.push('s')) == "day"@,
        singular("week"@) == "week"@ && singular("week"@.push('s')) == "week"@,
        singular("month"@) == "month"@ && singular("month"@.push('s')) == "month"@,
        singular("year"@) == "year"@ && singular("year"@.push('s')) == "year"@,
        singular("hour"@) == "hour"@ && singular("hour"@.push('s')) == "hour"@,
        singular("minute"@) == "minute"@ && singular("minute"@.push('s')) == "minute"@,
        singular("second"@) == "second"@ && singular("second"@.push('s')) == "second"@,
        unit_days("day"@) == Some(1int),
        unit_days("week"@) == Some(7int),
        unit_days("month"@) == Some(30int),
        unit_days("year"@) == Some(365int),
        unit_days("hour"@) == Some(0int),
        unit_days("minute"@) == Some(0int),
        unit_days("second"@) == Some(0int),
{
    reveal_strlit("day");
    reveal_strlit("week");
    reveal_strlit("month");
    reveal_strlit("year");
    reveal_strlit("hour");
    reveal_strlit("minute");
    reveal_strlit("second");
    assert("day"@.len() == 3 && "week"@.len() == 4 && "month"@.len() == 5 && "year"@.len() == 4);
    assert("hour"@.len() == 4 && "minute"@.len() == 6 && "second"@.len() == 6);
    assert("week"@[0] == 'w' && "year"@[0] == 'y' && "hour"@[0] == 'h');
    assert("minute"@[0] == 'm' && "second"@[0] == 's');
    assert("day"@.last() == 'y' && "week"@.last() == 'k' && "month"@.last() == 'h');
    assert("year"@.last() == 'r' && "hour"@.last() == 'r' && "minute"@.last() == 'e');
    assert("second"@.last() == 'd');
    assert("day"@.push('s').drop_last() =~= "day"@);
    assert("week"@.push('s').drop_last() =~= "week"@);
    assert("month"@.push('s').drop_last() =~= "month"@);
    assert("year"@.push('s').drop_last() =~= "year"@);
    assert("hour"@.push('s').drop_last() =~= "hour"@);
    assert("minute"@.push('s').drop_last() =~= "minute"@);
    assert("second"@.push('s').drop_last() =~= "second"@);
}

/// So many weeks ago are seven times as many days ago, so many months ago thirty
/// times, so many years ago 365 times; what happened hours, minutes or seconds
/// ago happened now.
pub proof fn units_are_so_many_days(s: Seq<char>, t: Seq<char>, n: int, now: int)
    requires
        n >= 0,
    ensures
        says_ago(s, n, "week"@) && says_ago(t, 7 * n, "day"@) ==> age(s, now) == age(t, now),
        says_ago(s, n, "month"@) && says_ago(t, 30 * n, "day"@) ==> age(s, now) == age(t, now),
        says_ago(s, n, "year"@) && says_ago(t, 365 * n, "day"@) ==> age(s, now) == age(t, now),
        says_ago(t, n, "day"@) && i64::MIN <= now - n * 86_400 && n * 86_400 <= i64::MAX ==> age(
            t,
            now,
        ) == Some(now - n * 86_400),
        (says_ago(s, n, "hour"@) || says_ago(s, n, "minute"@) || says_ago(s, n, "second"@))
            && i64::MIN <= now ==> age(s, now) == Some(now),
{
    lemma_units();
    assert(n * 7 * 86_400 == 7 * n * 1 * 86_400);
    assert(n * 30 * 86_400 == 30 * n * 1 * 86_400);
    assert(n * 365 * 86_400 == 365 * n * 1 * 86_400);
    assert(n * 0 * 86_400 == 0);
    assert(n * 1 * 86_400 == n * 86_400);
}

/// An age is never in the future.
pub proof fn age_is_not_in_the_future(s: Seq<char>, now: int)
    ensures
        age(s, now) matches Some(e) ==> e <= now,
{
    if s != "yesterday"@ {
        if let Some((count, s1)) = next_word(s) {
            if let Some((unit, s2)) = next_word(s1) {
                if let (Some(n), Some(days)) = (parse_signed(count), unit_days(singular(unit))) {
                    if n >= 0 {
                        assert(n * days * 86_400 >= 0) by (nonlinear_arith)
                            requires
                                n >= 0,
                                days >= 0,
                        ;
                    }
                }
            }
        }
    }
}

fn days_in(unit: &[char]) -> (r: Option<i64>)
    ensures
        match r {
            Some(n) => unit_days(unit@) == Some(n as int) && 0 <= n <= 365,
            None => unit_days(unit@) is None,
        },
{
    if same_chars(unit, &chars_of("day")) {
        Some(1)
    } else if same_chars(unit, &chars_of("week")) {
        Some(7)
    } else if same_chars(unit, &chars_of("month")) {
        Some(30)
    } else if same_chars(unit, &chars_of("year")) {
        Some(365)
    } else if same_chars(unit, &chars_of("hour")) || same_chars(unit, &chars_of("minute"))
        || same_chars(unit, &chars_of("second")) {
        Some(0)
    } else {
        None
    }
}

/// The moment that an age in lower case names.
pub fn age_epoch(s: &[char], now: i64) -> (r: Option<i64>)
    ensures
        match r {
            Some(e) => age(s@, now as int) == Some(e as int),
            None => age(s@, now as int) is None,
        },
{
    if same_chars(s, &chars_of("yesterday")) {
        return now.checked_sub(DAY);
    }
    assert(s@.skip(0) =~= s@);
    let a1: usize = skip_space(s, 0);
    let b1: usize = word_end(s, a1);
    let count = part(s, a1, b1);
    if a1 == s.len() {
        return None;
    }
    assert(s@.skip(a1 as int).take(b1 - a1) =~= count@);
    assert(s@.skip(a1 as int).skip(b1 - a1) =~= s@.skip(b1 as int));
    let a2: usize = skip_space(s, b1);
    let b2: usize = word_end(s, a2);
    let unit = part(s, a2, b2);
    if a2 == s.len() {
        return None;
    }
    assert(s@.skip(a2 as int).take(b2 - a2) =~= unit@);
    assert(s@.skip(a2 as int).skip(b2 - a2) =~= s@.skip(b2 as int));
    let a3: usize = skip_space(s, b2);
    let b3: usize = word_end(s, a3);
    let last = part(s, a3, b3);
    if a3 == s.len() {
        return None;
    }
    assert(s@.skip(a3 as int).take(b3 - a3) =~= last@);
    let n: i64 = match read_signed(&count) {
        Some(n) => n,
        None => {
            return None;
        },
    };
    let stem = if unit.len() > 0 && unit[unit.len() - 1] == 's' {
        part(&unit, 0, unit.len() - 1)
    } else {
        part(&unit, 0, unit.len())
    };
    assert(unit@.subrange(0, unit@.len() as int) =~= unit@);
    assert(unit@.len() > 0 ==> unit@.subrange(0, unit@.len() - 1) =~= unit@.drop_last());
    assert(stem@ == singular(unit@));
    let days: i64 = match days_in(&stem) {
        Some(d) => d,
        None => {
            return None;
        },
    };
    if n < 0 || !same_chars(&last, &chars_of("ago")) {
        return None;
    }
    proof {
        assert(0 <= n * days) by (nonlinear_arith)
            requires
                n >= 0,
                days >= 0,
        ;
    }
    match n.checked_mul(days) {
        Some(total) => match total.checked_mul(DAY) {
            Some(secs) => now.checked_sub(secs),
            None => None,
        },
        None => None,
    }
}

/// A text of three words.
pub open spec fn is_three_words(s: Seq<char>) -> bool {
    match next_word(s) {
        None => false,
        Some((_, s1)) => match next_word(s1) {
            None => false,
            Some((_, s2)) => match next_word(s2) {
                None => false,
                Some((_, s3)) => next_word(s3) is None,
            },
        },
    }
}

fn three_words(s: &[char]) -> (r: bool)
    ensures
        r == is_three_words(s@),
{
    assert(s@.skip(0) =~= s@);
    let a1: usize = skip_space(s, 0);
    let b1: usize = word_end(s, a1);
    if a1 == s.len() {
        return false;
    }
    assert(s@.skip(a1 as int).skip(b1 - a1) =~= s@.skip(b1 as int));
    let a2: usize = skip_space(s, b1);
    let b2: usize = word_end(s, a2);
    if a2 == s.len() {
        return false;
    }
    assert(s@.skip(a2 as int).skip(b2 - a2) =~= s@.skip(b2 as int));
    let a3: usize = skip_space(s, b2);
    let b3: usize = word_end(s, a3);
    if a3 == s.len() {
        return false;
    }
    assert(s@.skip(a3 as int).skip(b3 - a3) =~= s@.skip(b3 as int));
    skip_space(s, b3) == s.len()
}

/// `"N years/months/weeks/days ago"` (and `"yesterday"`, and units shorter
/// than a day) as an epoch relative to `now`.
pub fn parse_relative_ago(s: &str, now: i64) -> (r: Option<i64>)
    requires
        ascii_lower(trim(s@)) == "yesterday"@ ==> i64::MIN + 86_400 <= now,
    ensures
        match r {
            Some(e) => age(lowercase(trim(s@)), now as int) == Some(e as int) && e <= now,
            None => age(lowercase(trim(s@)), now as int) is None,
        },
{
    let plain = string_of(&trimmed(&chars_of(s)));
    let low = chars_of(to_lowercase(&plain).as_str());
    proof {
        age_is_not_in_the_future(low@, now as int);
    }
    age_epoch(&low, now)
}

pub open spec fn is_alphanumeric(c: char) -> bool {
    ('0' <= c && c <= '9') || ('a' <= c && c <= 'z') || ('A' <= c && c <= 'Z')
}

/// The moment that an age names to which all of the text belongs, whatever its
/// case and the blanks around it.
pub open spec fn whole_age(s: Seq<char>, now: int) -> Option<int> {
    if is_three_words(lowercase(trim(s))) {
        age(lowercase(trim(s)), now)
    } else {
        None
    }
}

fn read_whole_age(s: &str, now: i64) -> (r: Option<i64>)
    ensures
        match r {
            Some(e) => whole_age(s@, now as int) == Some(e as int) && e <= now,
            None => whole_age(s@, now as int) is None,
        },
{
    let plain = string_of(&trimmed(&chars_of(s)));
    let low = chars_of(to_lowercase(&plain).as_str());
    proof {
        age_is_not_in_the_future(low@, now as int);
    }
    if three_words(&low) {
        age_epoch(&low, now)
    } else {
        None
    }
}

/// The first age that begins with a digit of `w`, from `k` on, and goes on to
/// its end.
pub open spec fn first_age(w: Seq<char>, k: int, now: int) -> Option<int>
    decreases w.len() - k,
{
    if k < 0 || k >= w.len() {
        None
    } else if '0' <= w[k] && w[k] <= '9' && whole_age(w.skip(k), now) is Some {
        whole_age(w.skip(k), now)
    } else {
        first_age(w, k + 1, now)
    }
}

/// The age that ends with the ` ago` at position `i` of the page. What goes
/// before it counts for at most twenty characters, and no letter or digit may
/// follow.
pub open spec fn age_at(page: Seq<char>, i: int, now: int) -> Option<int> {
    if !crate::text::occurs_at(page, " ago"@, i) || (i + 4 < page.len() && is_alphanumeric(
        page[i + 4],
    )) {
        None
    } else {
        first_age(
            page.subrange(
                if i < 20 {
                    0
                } else {
                    i - 20
                },
                i + 4,
            ),
            0,
            now,
        )
    }
}

/// `r` is the oldest of the ages on the page.
pub open spec fn is_oldest_age(page: Seq<char>, now: int, r: Option<int>) -> bool {
    match r {
        Some(e) => {
            &&& exists|i: int| #[trigger] age_at(page, i, now) == Some(e)
            &&& forall|i: int| (#[trigger] age_at(page, i, now)) matches Some(f) ==> e <= f
        },
        None => forall|i: int| (#[trigger] age_at(page, i, now)) is None,
    }
}

/// No age that a page tells is older than the one that counts, which the page
/// tells; none counts only where the page tells none.
pub proof fn no_age_on_the_page_is_older(page: Seq<char>, now: int, r: Option<int>, i: int)
    requires
        is_oldest_age(page, now, r),
        age_at(page, i, now) is Some,
    ensures
        r is Some,
        r->Some_0 <= age_at(page, i, now)->Some_0,
        exists|k: int| #[trigger] age_at(page, k, now) == r,
{
    assert(age_at(page, i, now) == age_at(page, i, now));
}

/// A page has one oldest age at most.
pub proof fn oldest_age_is_unique(page: Seq<char>, now: int, a: Option<int>, b: Option<int>)
    requires
        is_oldest_age(page, now, a),
        is_oldest_age(page, now, b),
    ensures
        a == b,
{
}

/// Twenty line ends: as far as an age is looked for back from its end.
pub open spec fn gap() -> Seq<char> {
    Seq::new(20, |i: int| '\n')
}

/// The older of two moments, if there are any.
pub open spec fn older(a: Option<int>, b: Option<int>) -> Option<int> {
    match (a, b) {
        (Some(x), Some(y)) => if y < x {
            Some(y)
        } else {
            Some(x)
        },
        (Some(x), None) => Some(x),
        (None, _) => b,
    }
}

/// What is no digit begins no age.
proof fn lemma_first_age_behind(w: Seq<char>, m: int, k: int, now: int)
    requires
        0 <= k <= m <= w.len(),
        forall|i: int| 0 <= i < m ==> w[i] == '\n',
    ensures
        first_age(w, k, now) == first_age(w, m, now),
    decreases m - k,
{
    if k < m {
        lemma_first_age_behind(w, m, k + 1, now);
    }
}

proof fn lemma_first_age_skip(w: Seq<char>, v: Seq<char>, m: int, k: int, now: int)
    requires
        0 <= m <= w.len(),
        v == w.skip(m),
        0 <= k,
    ensures
        first_age(w, m + k, now) == first_age(v, k, now),
    decreases v.len() - k,
{
    if k < v.len() {
        assert(w.skip(m + k) =~= v.skip(k));
        lemma_first_age_skip(w, v, m, k + 1, now);
    }
}

/// The ages of the first page are found on both.
proof fn lemma_age_in_first(a: Seq<char>, b: Seq<char>, i: int, now: int)
    requires
        i + 4 <= a.len(),
    ensures
        age_at(a + gap() + b, i, now) == age_at(a, i, now),
{
    let page = a + gap() + b;
    reveal_strlit(" ago");
    if i >= 0 {
        assert(page.subrange(i, i + 4) =~= a.subrange(i, i + 4));
        let start = if i < 20 {
            0
        } else {
            i - 20
        };
        assert(page.subrange(start, i + 4) =~= a.subrange(start, i + 4));
        if i + 4 == a.len() {
            assert(page[i + 4] == gap()[0]);
        }
    }
}

/// The ages of the second page are found on both.
proof fn lemma_age_in_second(a: Seq<char>, b: Seq<char>, j: int, now: int)
    requires
        0 <= j,
    ensures
        age_at(a + gap() + b, a.len() + 20 + j, now) == age_at(b, j, now),
{
    let page = a + gap() + b;
    let n = a.len() + 20;
    let i = n + j;
    reveal_strlit(" ago");
    if j + 4 <= b.len() {
        assert(page.subrange(i, i + 4) =~= b.subrange(j, j + 4));
        let w = page.subrange(i - 20, i + 4);
        if j >= 20 {
            assert(w =~= b.subrange(j - 20, j + 4));
        } else {
            let v = b.subrange(0, j + 4);
            let m = 20 - j;
            assert(v =~= w.skip(m));
            assert forall|k: int| 0 <= k < m implies w[k] == '\n' by {
                assert(w[k] == gap()[j + k]);
            }
            lemma_first_age_behind(w, m, 0, now);
            lemma_first_age_skip(w, v, m, 0, now);
        }
        if j + 4 < b.len() {
            assert(page[i + 4] == b[j + 4]);
        }
    }
}

/// No age ends between the pages.
proof fn lemma_no_age_between(a: Seq<char>, b: Seq<char>, i: int, now: int)
    requires
        a.len() < i + 4,
        i < a.len() + 20,
    ensures
        age_at(a + gap() + b, i, now) is None,
{
    let page = a + gap() + b;
    reveal_strlit(" ago");
    if 0 <= i && i + 4 <= page.len() {
        let k = if i < a.len() {
            a.len() as int
        } else {
            i
        };
        assert(page[k] == gap()[k - a.len()]);
        assert(page.subrange(i, i + 4)[k - i] == '\n');
        assert(" ago"@[k - i] != '\n');
    }
}

/// The oldest age of two pages set far apart is the older of their own.
pub proof fn oldest_of_two_pages(
    a: Seq<char>,
    b: Seq<char>,
    now: int,
    x: Option<int>,
    y: Option<int>,
)
    requires
        is_oldest_age(a, now, x),
        is_oldest_age(b, now, y),
    ensures
        is_oldest_age(a + gap() + b, now, older(x, y)),
{
    let page = a + gap() + b;
    let n = a.len() + 20;
    let r = older(x, y);
    assert forall|i: int| (#[trigger] age_at(page, i, now)) is Some implies r is Some
        && r->Some_0 <= age_at(page, i, now)->Some_0 by {
        if i + 4 <= a.len() {
            lemma_age_in_first(a, b, i, now);
            assert(age_at(a, i, now) == age_at(page, i, now));
        } else if i < n {
            lemma_no_age_between(a, b, i, now);
        } else {
            lemma_age_in_second(a, b, i - n, now);
            assert(age_at(b, i - n, now) == age_at(page, i, now));
        }
    }
    if let Some(e) = r {
        if x == Some(e) {
            let i = choose|i: int| #[trigger] age_at(a, i, now) == Some(e);
            reveal_strlit(" ago");
            assert(i + 4 <= a.len());
            lemma_age_in_first(a, b, i, now);
            assert(age_at(page, i, now) == Some(e));
        } else {
            let j = choose|j: int| #[trigger] age_at(b, j, now) == Some(e);
            reveal_strlit(" ago");
            assert(0 <= j);
            lemma_age_in_second(a, b, j, now);
            assert(age_at(page, n + j, now) == Some(e));
        }
    }
}

fn window_age(w: &[char], now: i64) -> (r: Option<i64>)
    ensures
        match r {
            Some(e) => first_age(w@, 0, now as int) == Some(e as int) && e <= now,
            None => first_age(w@, 0, now as int) is None,
        },
{
    let mut k: usize = 0;
    while k < w.len()
        invariant
            k <= w@.len(),
            first_age(w@, 0, now as int) == first_age(w@, k as int, now as int),
        decreases w@.len() - k,
    {
        if '0' <= w[k] && w[k] <= '9' {
            let tail = string_of(&part(w, k, w.len()));
            assert(tail@ =~= w@.skip(k as int));
            if let Some(e) = read_whole_age(&tail, now) {
                return Some(e);
            }
        }
        k = k + 1;
    }
    None
}

/// The oldest age that the page mentions, as an epoch.
pub fn oldest_relative_date(html: &str, now: i64) -> (r: Option<i64>)
    ensures
        is_oldest_age(
            html@,
            now as int,
            match r {
                Some(e) => Some(e as int),
                None => None,
            },
        ),
        r matches Some(e) ==> e <= now,
{
    let page = chars_of(html);
    let ago = chars_of(" ago");
    proof {
        reveal_strlit(" ago");
    }
    let mut oldest: Option<i64> = None;
    let mut from: usize = 0;
    loop
        invariant
            page@ == html@,
            ago@ == " ago"@,
            ago@.len() == 4,
            from <= page@.len(),
            match oldest {
                Some(e) => {
                    &&& e <= now
                    &&& exists|i: int| #[trigger] age_at(page@, i, now as int) == Some(e as int)
                    &&& forall|i: int|
                        i < from ==> ((#[trigger] age_at(page@, i, now as int)) matches Some(f)
                            ==> e <= f)
                },
                None => forall|i: int|
                    i < from ==> (#[trigger] age_at(page@, i, now as int)) is None,
            },
        decreases page@.len() - from,
    {
        proof {
            crate::text::lemma_first_at(page@, ago@, from as int);
        }
        let i: usize = match find_from(&page, &ago, from) {
            Some(i) => i,
            None => {
                return oldest;
            },
        };
        let bounded = i + 4 >= page.len() || !alphanumeric(page[i + 4]);
        if bounded {
            let start: usize = if i < 20 {
                0
            } else {
                i - 20
            };
            let w = part(&page, start, i + 4);
            if let Some(e) = window_age(&w, now) {
                assert(age_at(page@, i as int, now as int) == Some(e as int));
                oldest = match oldest {
                    Some(o) => if e < o {
                        Some(e)
                    } else {
                        Some(o)
                    },
                    None => Some(e),
                };
            }
        }
        from = i + 1;
    }
}

pub fn alphanumeric(c: char) -> (r: bool)
    ensures
        r == is_alphanumeric(c),
{
    ('0' <= c && c <= '9') || ('a' <= c && c <= 'z') || ('A' <= c && c <= 'Z')
}

} // verus!
