//! Dates of the civil calendar, from the count of seconds since 1970.

use crate::text::{decimal, digit, push_decimal};
use vstd::arithmetic::div_mod::lemma_mod_multiples_vanish;
use vstd::prelude::*;

verus! {

/// Whether a year has a leap day.
pub open spec fn is_leap(y: int) -> bool {
    y % 4 == 0 && (y % 100 != 0 || y % 400 == 0)
}

/// The days of a year.
pub open spec fn year_len(y: int) -> int {
    if is_leap(y) {
        366
    } else {
        365
    }
}

/// The days of a month.
pub open spec fn month_len(y: int, m: int) -> int {
    if m == 2 {
        if is_leap(y) {
            29
        } else {
            28
        }
    } else if m == 4 || m == 6 || m == 9 || m == 11 {
        30
    } else {
        31
    }
}

/// The days from the start of 1970 to the start of a year.
pub open spec fn year_start(y: int) -> int
    decreases y - 1970,
{
    if y <= 1970 {
        0
    } else {
        year_start(y - 1) + year_len(y - 1)
    }
}

/// The days from the start of a year to the start of a month.
pub open spec fn month_start(y: int, m: int) -> int
    decreases m,
{
    if m <= 1 {
        0
    } else {
        month_start(y, m - 1) + month_len(y, m - 1)
    }
}

/// Whether there is such a date, from 1970 on.
pub open spec fn is_date(y: int, m: int, d: int) -> bool {
    1970 <= y && 1 <= m <= 12 && 1 <= d <= month_len(y, m)
}

/// The days from the first of January 1970 to a date.
pub open spec fn day_number(y: int, m: int, d: int) -> int {
    year_start(y) + month_start(y, m) + d - 1
}

/// The leap days up to the end of a year, counted as if the calendar had always been
/// in use.
spec fn leap_days(y: int) -> int {
    y / 4 - y / 100 + y / 400
}

proof fn lemma_leap_day(y: int)
    requires
        y >= 1,
    ensures
        leap_days(y) - leap_days(y - 1) == (if is_leap(y) {
            1int
        } else {
            0
        }),
{
    let a = y / 4;
    let b = y / 100;
    let c = y / 400;
    assert((y - 1) / 4 == if y % 4 == 0 { a - 1 } else { a });
    assert((y - 1) / 100 == if y % 100 == 0 { b - 1 } else { b });
    assert((y - 1) / 400 == if y % 400 == 0 { c - 1 } else { c });
}

proof fn lemma_year_start(y: int)
    requires
        y >= 1970,
    ensures
        year_start(y) == 365 * (y - 1970) + leap_days(y - 1) - 477,
    decreases y,
{
    if y > 1970 {
        lemma_year_start(y - 1);
        lemma_leap_day(y - 1);
    }
}

/// The year within an era of 400 years that begin in March, and the day within it.
proof fn lemma_year_of_era(doe: int)
    requires
        0 <= doe <= 146096,
    ensures
        ({
            let yoe = (doe - doe / 1460 + doe / 36524 - doe / 146096) / 365;
            let doy = doe - (365 * yoe + yoe / 4 - yoe / 100);
            &&& 0 <= yoe <= 399
            &&& 0 <= doy <= 365
            &&& doy == 365 ==> is_leap(yoe + 1)
        }),
{
    let yoe = (doe - doe / 1460 + doe / 36524 - doe / 146096) / 365;
    let c = if doe / 36524 < 3 {
        doe / 36524
    } else {
        3
    };
    let r = doe - 36524 * c;
    assert(0 <= r <= 36524 && (r == 36524 ==> c == 3));
    let q = r / 1461;
    let s = r - 1461 * q;
    assert(0 <= q <= 24 && 0 <= s <= 1460);
    let t = if s / 365 < 3 {
        s / 365
    } else {
        3
    };
    let u = s - 365 * t;
    assert(0 <= t <= 3 && 0 <= u <= 365 && (u == 365 ==> t == 3 && s == 1460));
    let f = (24 * c + q + s) / 1460;
    assert(0 <= f <= 1);
    assert(doe / 1460 == 25 * c + q + f) by {
        assert(doe == 1460 * (25 * c + q) + 24 * c + q + s);
    }
    let last: int = if doe == 146096 {
        1
    } else {
        0
    };
    assert(doe / 36524 == c + last);
    assert(doe / 146096 == last);
    let y = 100 * c + 4 * q + t;
    let n = doe - doe / 1460 + doe / 36524 - doe / 146096;
    assert(n == 365 * y + u - f);
    assert(0 <= u - f < 365);
    assert(n / 365 == y);
    assert(yoe == y);
    assert(yoe / 4 == 25 * c + q);
    assert(yoe / 100 == c);
    if u == 365 {
        assert(yoe + 1 == 100 * c + 4 * (q + 1));
        if q == 24 {
            assert(s == 1460 && r == 36524);
            assert(c == 3);
        }
    }
}

/// The month and the day of the month, from the day of a year that begins in March.
proof fn lemma_month_of_year(y: int, doy: int)
    requires
        y >= 0,
        0 <= doy <= 365,
        doy == 365 ==> is_leap(y + 1),
    ensures
        ({
            let mp = (5 * doy + 2) / 153;
            let d = doy - (153 * mp + 2) / 5 + 1;
            let m = if mp < 10 {
                mp + 3
            } else {
                mp - 9
            };
            let year = if m <= 2 {
                y + 1
            } else {
                y
            };
            &&& 0 <= mp <= 11
            &&& 1 <= m <= 12
            &&& 1 <= d <= month_len(year, m)
            &&& m >= 3 ==> month_start(year, m) + d - 1 == doy + month_start(year, 3)
            &&& m <= 2 ==> month_start(year, m) + d - 1 == doy - 306
        }),
{
    reveal_with_fuel(month_start, 13);
    let mp = (5 * doy + 2) / 153;
    assert(0 <= mp <= 11);
    if mp == 0 {
    } else if mp == 1 {
    } else if mp == 2 {
    } else if mp == 3 {
    } else if mp == 4 {
    } else if mp == 5 {
    } else if mp == 6 {
    } else if mp == 7 {
    } else if mp == 8 {
    } else if mp == 9 {
    } else if mp == 10 {
    } else {
    }
}

/// Leap days fall in the same years of every era.
proof fn lemma_same_in_every_era(era: int, yoe: int)
    ensures
        is_leap(400 * era + yoe) == is_leap(yoe),
{
    lemma_mod_multiples_vanish(100 * era, yoe, 4);
    lemma_mod_multiples_vanish(4 * era, yoe, 100);
    lemma_mod_multiples_vanish(era, yoe, 400);
}

/// The number of a day that is given by era, year of the era and day of the year.
proof fn lemma_day_number(era: int, yoe: int, doy: int, m: int, d: int, year: int)
    requires
        0 <= era,
        0 <= yoe <= 399,
        0 <= doy <= 365,
        1 <= m <= 12,
        year == (if m <= 2 {
            400 * era + yoe + 1
        } else {
            400 * era + yoe
        }),
        m >= 3 ==> doy <= 305,
        m >= 3 ==> month_start(year, m) + d - 1 == doy + month_start(year, 3),
        m <= 2 ==> month_start(year, m) + d - 1 == doy - 306,
        146_097 * era + 365 * yoe + yoe / 4 - yoe / 100 + doy >= 719_468,
    ensures
        year >= 1970,
        day_number(year, m, d) == 146_097 * era + 365 * yoe + yoe / 4 - yoe / 100 + doy - 719_468,
{
    let y = 400 * era + yoe;
    assert(year >= 1970) by {
        if era <= 3 {
            assert(146_097 * era <= 438_291);
        } else if era == 4 {
            if yoe <= 368 {
                assert(365 * yoe + yoe / 4 - yoe / 100 <= 134_409);
            }
        }
    }
    assert(leap_days(y) == 97 * era + yoe / 4 - yoe / 100) by {
        assert(y / 4 == 100 * era + yoe / 4);
        assert(y / 100 == 4 * era + yoe / 100);
        assert(y / 400 == era);
    }
    reveal_with_fuel(month_start, 3);
    lemma_year_start(year);
    if m >= 3 {
        lemma_leap_day(year);
    }
}

/// A date.
#[derive(Clone, Copy, PartialEq, Eq, Structural, Debug)]
pub struct Date {
    /// The year.
    pub year: i64,
    /// The month, from one.
    pub month: i64,
    /// The day of the month, from one.
    pub day: i64,
}

/// The date that lies `days` after the first of January 1970.
#[verifier::rlimit(30)]
pub fn civil_from_days(days: i64) -> (c: Date)
    requires
        0 <= days <= 0x0fff_ffff_ffff_ffff,
    ensures
        is_date(c.year as int, c.month as int, c.day as int),
        day_number(c.year as int, c.month as int, c.day as int) == days,
{
    let z: i64 = days + 719_468;
    let era: i64 = z / 146_097;
    let doe: i64 = z - era * 146_097;
    let yoe: i64 = (doe - doe / 1_460 + doe / 36_524 - doe / 146_096) / 365;
    proof {
        lemma_year_of_era(doe as int);
    }
    let y: i64 = yoe + era * 400;
    let doy: i64 = doe - (365 * yoe + yoe / 4 - yoe / 100);
    proof {
        lemma_same_in_every_era(era as int, yoe + 1);
        lemma_month_of_year(y as int, doy as int);
    }
    let mp: i64 = (5 * doy + 2) / 153;
    let day: i64 = doy - (153 * mp + 2) / 5 + 1;
    let month: i64 = if mp < 10 {
        mp + 3
    } else {
        mp - 9
    };
    let year: i64 = if month <= 2 {
        y + 1
    } else {
        y
    };
    proof {
        lemma_day_number(era as int, yoe as int, doy as int, month as int, day as int, year as int);
    }
    Date { year, month, day }
}

/// A year begins after every day of the years before it.
proof fn lemma_years_apart(a: int, b: int)
    requires
        1970 <= a < b,
    ensures
        year_start(a) + year_len(a) <= year_start(b),
    decreases b - a,
{
    if b > a + 1 {
        lemma_years_apart(a, b - 1);
    }
}

/// A month begins after every day of the months before it, and ends within the year.
proof fn lemma_months_apart(y: int, a: int, b: int)
    requires
        1 <= a <= 12,
        a < b <= 13,
    ensures
        month_start(y, a) + month_len(y, a) <= month_start(y, b),
        month_start(y, 13) == year_len(y),
    decreases b - a,
{
    reveal_with_fuel(month_start, 14);
    if b > a + 1 {
        lemma_months_apart(y, a, b - 1);
    }
}

/// No two dates have the same number.
pub proof fn law_dates_are_apart(y1: int, m1: int, d1: int, y2: int, m2: int, d2: int)
    requires
        is_date(y1, m1, d1),
        is_date(y2, m2, d2),
        day_number(y1, m1, d1) == day_number(y2, m2, d2),
    ensures
        y1 == y2 && m1 == m2 && d1 == d2,
{
    lemma_day_in_year(y1, m1, d1);
    lemma_day_in_year(y2, m2, d2);
    if y1 < y2 {
        lemma_years_apart(y1, y2);
    } else if y2 < y1 {
        lemma_years_apart(y2, y1);
    } else if m1 < m2 {
        lemma_months_apart(y1, m1, m2);
    } else if m2 < m1 {
        lemma_months_apart(y1, m2, m1);
    }
}

/// A date lies within its year.
proof fn lemma_day_in_year(y: int, m: int, d: int)
    requires
        is_date(y, m, d),
    ensures
        0 <= month_start(y, m) + d - 1 < year_len(y),
{
    lemma_months_apart(y, m, 13);
    lemma_month_start(y, m);
}

proof fn lemma_month_start(y: int, m: int)
    ensures
        month_start(y, m) >= 0,
    decreases m,
{
    if m > 1 {
        lemma_month_start(y, m - 1);
    }
}

/// A number below a hundred with two digits.
pub open spec fn two_digits(n: int) -> Seq<char> {
    seq![digit(n / 10), digit(n % 10)]
}

/// Appends a number below a hundred with two digits.
fn push_two(s: &mut String, n: u64)
    requires
        n < 100,
    ensures
        final(s)@ == old(s)@ + two_digits(n as int),
{
    push_decimal(s, n / 10);
    let ghost mid = s@;
    assert(mid =~= old(s)@ + seq![digit(n as int / 10)]);
    push_decimal(s, n % 10);
    assert(s@ =~= old(s)@ + two_digits(n as int));
}

/// A moment of a date, as it is written.
pub open spec fn moment(y: int, m: int, d: int, second: int) -> Seq<char> {
    decimal(y as nat) + "-"@ + two_digits(m) + "-"@ + two_digits(d) + "T"@ + two_digits(
        second / 3600,
    ) + ":"@ + two_digits(second % 3600 / 60) + ":"@ + two_digits(second % 60) + "Z"@
}

/// The moment `secs` seconds after the start of 1970, as it is written.
pub fn iso8601_utc(secs: u64) -> (s: String)
    ensures
        exists|y: int, m: int, d: int|
            #![trigger is_date(y, m, d)]
            is_date(y, m, d) && day_number(y, m, d) == secs / 86_400 && s@ == moment(
                y,
                m,
                d,
                secs as int % 86_400,
            ),
{
    let days: i64 = (secs / 86_400) as i64;
    let rem: u64 = secs % 86_400;
    let c = civil_from_days(days);
    let mut s = String::new();
    push_decimal(&mut s, c.year as u64);
    s.append("-");
    push_two(&mut s, c.month as u64);
    s.append("-");
    push_two(&mut s, c.day as u64);
    s.append("T");
    push_two(&mut s, rem / 3600);
    s.append(":");
    push_two(&mut s, (rem % 3600) / 60);
    s.append(":");
    push_two(&mut s, rem % 60);
    s.append("Z");
    proof {
        assert(is_date(c.year as int, c.month as int, c.day as int));
        assert(s@ =~= moment(c.year as int, c.month as int, c.day as int, rem as int));
    }
    s
}

/// The days follow each other: the first day of 1970 has number zero, and the day after a
/// day has the next number. Months have thirty-one days, but April, June, September and
/// November thirty, and February twenty-eight or, in a leap year, twenty-nine; a leap year
/// is every fourth one, but of the full hundreds only every fourth.
pub proof fn law_days_follow_each_other(y: int, m: int, d: int)
    requires
        1970 <= y,
        1 <= m <= 12,
        1 <= d,
    ensures
        ({
            let last: int = if m == 2 {
                if y % 4 == 0 && (y % 100 != 0 || y % 400 == 0) {
                    29
                } else {
                    28
                }
            } else if m == 4 || m == 6 || m == 9 || m == 11 {
                30
            } else {
                31
            };
            &&& is_date(y, m, d) <==> d <= last
            &&& day_number(y, m, d + 1) == day_number(y, m, d) + 1
            &&& m < 12 ==> day_number(y, m + 1, 1) == day_number(y, m, last) + 1
            &&& day_number(y + 1, 1, 1) == day_number(y, 12, 31) + 1
            &&& day_number(1970, 1, 1) == 0
        }),
{
    reveal_with_fuel(month_start, 13);
    reveal_with_fuel(year_start, 2);
}

} // verus!
