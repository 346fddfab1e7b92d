//! The proleptic Gregorian calendar, counted in days from 1970-01-01.
use vstd::prelude::*;
use vstd::arithmetic::div_mod::*;

verus! {

/// A year is a leap year when it is divisible by 4, except for the years
/// divisible by 100 that are not divisible by 400.
pub open spec fn is_leap_year(y: int) -> bool {
    y % 4 == 0 && (y % 100 != 0 || y % 400 == 0)
}

/// The number of days of month `m` (1 = January) in year `y`.
pub open spec fn days_in_month(y: int, m: int) -> int {
    if m == 2 {
        if is_leap_year(y) { 29 } else { 28 }
    } else if m == 4 || m == 6 || m == 9 || m == 11 {
        30
    } else {
        31
    }
}

/// The date `y`-`m`-`d` exists in the Gregorian calendar.
pub open spec fn is_valid_date(y: int, m: int, d: int) -> bool {
    &&& 1 <= m <= 12
    &&& 1 <= d <= days_in_month(y, m)
}

/// The number of days in the months of year `y` that come before month `m`.
pub open spec fn days_before_month(y: int, m: int) -> int
    decreases m,
{
    if m <= 1 {
        0
    } else {
        days_before_month(y, m - 1) + days_in_month(y, m - 1)
    }
}

/// The number of leap years among the years 1 through `y` (counted with a
/// sign for years before 1).
pub open spec fn leap_years_through(y: int) -> int {
    y / 4 - y / 100 + y / 400
}

/// The number of days from 1970-01-01 to the first day of year `y`
/// (negative for years before 1970).
pub open spec fn days_before_year(y: int) -> int {
    365 * (y - 1970) + leap_years_through(y - 1) - leap_years_through(1969)
}

/// The number of days from 1970-01-01 to the date `y`-`m`-`d`.
pub open spec fn days_from_civil(y: int, m: int, d: int) -> int {
    days_before_year(y) + days_before_month(y, m) + d - 1
}

/// The civil date that falls `days` days after 1970-01-01 (before it, for a
/// negative count).
pub open spec fn civil_date_of(days: int) -> (int, int, int) {
    choose|date: (int, int, int)|
        is_valid_date(date.0, date.1, date.2) && days_from_civil(date.0, date.1, date.2) == days
}

/// Splits a day of a 400-year era (counted from the 1st of March of its first
/// year) into the year of the era and the day of that year, as the
/// conversion below computes them.
proof fn lemma_split_era_day(doe: int)
    requires
        0 <= doe <= 146096,
    ensures
        ({
            let yoe = (doe - doe / 1460 + doe / 36524 - doe / 146096) / 365;
            let doy = doe - (365 * yoe + yoe / 4 - yoe / 100);
            &&& 0 <= yoe <= 399
            &&& 0 <= doy <= 365
            &&& doy == 365 ==> is_leap_year(yoe + 1)
        }),
{
    let c: int = if doe == 146096 { 3 } else { doe / 36524 };
    let r: int = doe - 36524 * c;
    let k: int = r / 1461;
    let s: int = r - 1461 * k;
    let j: int = if s == 1460 { 3 } else { s / 365 };
    let dd: int = s - 365 * j;
    assert(0 <= c <= 3 && 0 <= r <= 36524);
    assert(0 <= k <= 24 && 0 <= s <= 1460);
    assert(0 <= j <= 3 && 0 <= dd <= 365);
    let e1: int = if 24 * c + k + s >= 1460 { 1 } else { 0 };
    let e2: int = if doe == 146096 { 1 } else { 0 };
    assert(doe / 1460 == 25 * c + k + e1) by {
        lemma_fundamental_div_mod_converse(doe, 1460, 25 * c + k + e1, 24 * c + k + s - 1460 * e1);
    }
    assert(doe / 36524 == c + e2) by {
        lemma_fundamental_div_mod_converse(doe, 36524, c + e2, r - 36524 * e2);
    }
    assert(doe / 146096 == e2) by {
        lemma_fundamental_div_mod_converse(doe, 146096, e2, doe - 146096 * e2);
    }
    let t = doe - doe / 1460 + doe / 36524 - doe / 146096;
    let yoe = t / 365;
    assert(yoe == 100 * c + 4 * k + j) by {
        lemma_fundamental_div_mod_converse(t, 365, 100 * c + 4 * k + j, dd - e1);
    }
    assert(yoe / 4 == 25 * c + k) by {
        lemma_fundamental_div_mod_converse(yoe, 4, 25 * c + k, j);
    }
    assert(yoe / 100 == c) by {
        lemma_fundamental_div_mod_converse(yoe, 100, c, 4 * k + j);
    }
    let doy = doe - (365 * yoe + yoe / 4 - yoe / 100);
    assert(doy == dd);
    if doy == 365 {
        let y1 = yoe + 1;
        if k < 24 {
            assert(y1 % 4 == 0) by {
                lemma_fundamental_div_mod_converse(y1, 4, 25 * c + k + 1, 0);
            }
            assert(y1 % 100 == 4 * k + 4) by {
                lemma_fundamental_div_mod_converse(y1, 100, c, 4 * k + 4);
            }
        } else {
            assert(y1 == 400);
        }
    }
}

/// `x / n` steps up by one exactly at the multiples of `n`.
proof fn lemma_div_step(x: int, n: int)
    requires
        n > 0,
    ensures
        x / n - (x - 1) / n == (if x % n == 0 { 1int } else { 0int }),
{
    lemma_fundamental_div_mod(x, n);
    let q = x / n;
    let r = x % n;
    assert((q - 1) * n == n * q - n) by (nonlinear_arith);
    assert(q * n == n * q) by (nonlinear_arith);
    if r == 0 {
        lemma_fundamental_div_mod_converse(x - 1, n, q - 1, n - 1);
    } else {
        lemma_fundamental_div_mod_converse(x - 1, n, q, r - 1);
    }
}

/// Year `y` has 366 days when it is a leap year and 365 days otherwise.
pub proof fn lemma_year_length(y: int)
    ensures
        days_before_year(y + 1) - days_before_year(y) == (if is_leap_year(y) { 366int } else { 365int }),
{
    lemma_div_step(y, 4);
    lemma_div_step(y, 100);
    lemma_div_step(y, 400);
    lemma_fundamental_div_mod(y, 400);
    lemma_fundamental_div_mod(y, 100);
    if y % 400 == 0 {
        lemma_fundamental_div_mod_converse(y, 100, 4 * (y / 400), 0);
    }
    if y % 100 == 0 {
        lemma_fundamental_div_mod_converse(y, 4, 25 * (y / 100), 0);
    }
}

/// The first day of a civil year that follows year `yoe` of a 400-year era.
proof fn lemma_year_start_in_era(era: int, yoe: int)
    requires
        0 <= yoe <= 399,
    ensures
        days_before_year(400 * era + yoe + 1) == 146097 * era + 365 * yoe + yoe / 4 - yoe / 100 - 719162,
{
    let x = 400 * era + yoe;
    lemma_fundamental_div_mod(yoe, 4);
    lemma_fundamental_div_mod(yoe, 100);
    lemma_fundamental_div_mod_converse(x, 4, 100 * era + yoe / 4, yoe % 4);
    lemma_fundamental_div_mod_converse(x, 100, 4 * era + yoe / 100, yoe % 100);
    lemma_fundamental_div_mod_converse(x, 400, era, yoe);
    assert(leap_years_through(1969) == 477);
}

/// The first day of each month of a year, counted from the 1st of March.
spec fn march_month_start(mp: int) -> int {
    (153 * mp + 2) / 5
}

/// The months of year `y`: their lengths and the days before each.
proof fn lemma_month_table(y: int)
    ensures
        days_before_month(y, 1) == 0,
        days_before_month(y, 2) == 31,
        days_before_month(y, 3) == 59 + (if is_leap_year(y) { 1int } else { 0int }),
        days_before_month(y, 4) == days_before_month(y, 3) + 31,
        days_before_month(y, 5) == days_before_month(y, 3) + 61,
        days_before_month(y, 6) == days_before_month(y, 3) + 92,
        days_before_month(y, 7) == days_before_month(y, 3) + 122,
        days_before_month(y, 8) == days_before_month(y, 3) + 153,
        days_before_month(y, 9) == days_before_month(y, 3) + 184,
        days_before_month(y, 10) == days_before_month(y, 3) + 214,
        days_before_month(y, 11) == days_before_month(y, 3) + 245,
        days_before_month(y, 12) == days_before_month(y, 3) + 275,
        days_before_month(y, 13) == days_before_month(y, 3) + 306,
{
    reveal_with_fuel(days_before_month, 13);
}

/// Finds the month and the day of month of a day of a year that starts on
/// the 1st of March of year `yp`.
proof fn lemma_month_of_year_day(yp: int, doy: int)
    requires
        0 <= doy <= 365,
        doy == 365 ==> is_leap_year(yp + 1),
    ensures
        ({
            let mp = (5 * doy + 2) / 153;
            let d = doy - march_month_start(mp) + 1;
            let m = if mp < 10 { mp + 3 } else { mp - 9 };
            let y = if m <= 2 { yp + 1 } else { yp };
            &&& is_valid_date(y, m, d)
            &&& days_from_civil(y, m, d) == days_before_year(yp + 1) - 306 + doy
        }),
{
    let mp = (5 * doy + 2) / 153;
    lemma_fundamental_div_mod(5 * doy + 2, 153);
    assert(0 <= mp <= 11);
    let lo = march_month_start(mp);
    let hi = march_month_start(mp + 1);
    lemma_fundamental_div_mod(153 * mp + 2, 5);
    lemma_fundamental_div_mod(153 * mp + 155, 5);
    assert(lo <= doy < hi);
    lemma_month_table(yp);
    lemma_month_table(yp + 1);
    lemma_year_length(yp);
    assert(march_month_start(0) == 0);
    assert(march_month_start(1) == 31);
    assert(march_month_start(2) == 61);
    assert(march_month_start(3) == 92);
    assert(march_month_start(4) == 122);
    assert(march_month_start(5) == 153);
    assert(march_month_start(6) == 184);
    assert(march_month_start(7) == 214);
    assert(march_month_start(8) == 245);
    assert(march_month_start(9) == 275);
    assert(march_month_start(10) == 306);
    assert(march_month_start(11) == 337);
    assert(march_month_start(12) == 367);
}

/// Whether a year is a leap year does not change from one 400-year era to
/// the next.
proof fn lemma_leap_in_era(era: int, yoe: int)
    ensures
        is_leap_year(yoe + 1) ==> is_leap_year(400 * era + yoe + 1),
{
    lemma_fundamental_div_mod(yoe + 1, 400);
    lemma_fundamental_div_mod_converse(400 * era + yoe + 1, 4, 100 * era + (yoe + 1) / 4, (yoe + 1) % 4);
    lemma_fundamental_div_mod_converse(400 * era + yoe + 1, 100, 4 * era + (yoe + 1) / 100, (yoe + 1) % 100);
    lemma_fundamental_div_mod_converse(400 * era + yoe + 1, 400, era + (yoe + 1) / 400, (yoe + 1) % 400);
    lemma_fundamental_div_mod(yoe + 1, 4);
    lemma_fundamental_div_mod(yoe + 1, 100);
}

/// Every day count, however large or negative, names a civil date:
/// `civil_date_of` is a valid date with that day count.
pub proof fn lemma_civil_date_of_valid(days: int)
    ensures
        ({
            let date = civil_date_of(days);
            &&& is_valid_date(date.0, date.1, date.2)
            &&& days_from_civil(date.0, date.1, date.2) == days
        }),
{
    let z = days + 719468;
    let era = z / 146097;
    lemma_fundamental_div_mod(z, 146097);
    let doe = z - era * 146097;
    lemma_split_era_day(doe);
    let yoe = (doe - doe / 1460 + doe / 36524 - doe / 146096) / 365;
    let doy = doe - (365 * yoe + yoe / 4 - yoe / 100);
    lemma_year_start_in_era(era, yoe);
    lemma_leap_in_era(era, yoe);
    let yp = 400 * era + yoe;
    lemma_month_of_year_day(yp, doy);
    let mp = (5 * doy + 2) / 153;
    let d = doy - march_month_start(mp) + 1;
    let m = if mp < 10 { mp + 3 } else { mp - 9 };
    let y = if m <= 2 { yp + 1 } else { yp };
    let w = (y, m, d);
    assert(is_valid_date(w.0, w.1, w.2) && days_from_civil(w.0, w.1, w.2) == days);
}

/// Converts a count of days since 1970-01-01 into the civil date
/// `(year, month, day)` of the proleptic Gregorian calendar, month 1 being
/// January (Howard Hinnant's algorithm).
pub fn civil_from_days(days: i64) -> (date: (i64, u64, u64))
    requires
        days <= i64::MAX - 719_468,
    ensures
        is_valid_date(date.0 as int, date.1 as int, date.2 as int),
        days_from_civil(date.0 as int, date.1 as int, date.2 as int) == days,
        (date.0 as int, date.1 as int, date.2 as int) == civil_date_of(days as int),
{
    let z = days + 719_468;
    let era = if z >= 0 { z } else { z - 146_096 } / 146_097;
    proof {
        lemma_fundamental_div_mod(z as int, 146097);
    }
    let doe = (z - era * 146_097) as u64;
    assert(doe / 1460 + doe / 146096 <= doe);
    let yoe = (doe - doe / 1_460 + doe / 36_524 - doe / 146_096) / 365;
    proof {
        lemma_split_era_day(doe as int);
    }
    let y = yoe as i64 + era * 400;
    let doy = doe - (365 * yoe + yoe / 4 - yoe / 100);
    let mp = (5 * doy + 2) / 153;
    let d = doy - (153 * mp + 2) / 5 + 1;
    let m = if mp < 10 { mp + 3 } else { mp - 9 };
    proof {
        lemma_year_start_in_era(era as int, yoe as int);
        lemma_leap_in_era(era as int, yoe as int);
        lemma_month_of_year_day(y as int, doy as int);
    }
    let date = (if m <= 2 { y + 1 } else { y }, m, d);
    proof {
        lemma_civil_date_of_days_from_civil(date.0 as int, date.1 as int, date.2 as int);
    }
    date
}

/// Every month of a year ends no later than the first day of a later month.
proof fn lemma_month_ends_before(y: int, m: int, m2: int)
    requires
        1 <= m < m2,
    ensures
        days_before_month(y, m) + days_in_month(y, m) <= days_before_month(y, m2),
    decreases m2 - m,
{
    if m2 > m + 1 {
        lemma_month_ends_before(y, m, m2 - 1);
    }
}

/// Later years start later: the first day of year `a` comes before that of
/// every later year `b`.
pub proof fn lemma_year_start_increasing(a: int, b: int)
    requires
        a < b,
    ensures
        days_before_year(a) + 365 <= days_before_year(b),
    decreases b - a,
{
    lemma_year_length(a);
    if b > a + 1 {
        lemma_year_start_increasing(a + 1, b);
    }
}

/// A valid date lies within its year: on or after the year's first day and
/// before the next year's first day.
pub proof fn lemma_date_within_year(y: int, m: int, d: int)
    requires
        is_valid_date(y, m, d),
    ensures
        days_before_year(y) <= days_from_civil(y, m, d) < days_before_year(y + 1),
{
    lemma_month_table(y);
    lemma_year_length(y);
    if m < 13 {
        lemma_month_ends_before(y, m, 13);
    }
    assert(days_before_month(y, m) >= 0) by {
        if m > 1 {
            lemma_month_ends_before(y, 1, m);
        }
    }
}

/// Distinct valid dates fall on distinct days: a day count names at most one
/// civil date.
pub proof fn lemma_days_from_civil_injective(y1: int, m1: int, d1: int, y2: int, m2: int, d2: int)
    requires
        is_valid_date(y1, m1, d1),
        is_valid_date(y2, m2, d2),
        days_from_civil(y1, m1, d1) == days_from_civil(y2, m2, d2),
    ensures
        y1 == y2,
        m1 == m2,
        d1 == d2,
{
    lemma_date_within_year(y1, m1, d1);
    lemma_date_within_year(y2, m2, d2);
    if y1 < y2 {
        lemma_year_start_increasing(y1 + 1, y2 + 1);
    }
    if y2 < y1 {
        lemma_year_start_increasing(y2 + 1, y1 + 1);
    }
    assert(y1 == y2);
    if m1 < m2 {
        lemma_month_ends_before(y1, m1, m2);
    }
    if m2 < m1 {
        lemma_month_ends_before(y1, m2, m1);
    }
}

/// The days on or after 1970-01-01 fall in the year 1970 or later.
pub proof fn lemma_year_from_days_nonnegative(y: int, m: int, d: int)
    requires
        is_valid_date(y, m, d),
        days_from_civil(y, m, d) >= 0,
    ensures
        y >= 1970,
{
    lemma_date_within_year(y, m, d);
    if y < 1969 {
        lemma_year_start_increasing(y + 1, 1970);
    }
}

/// Converting a valid date to its day count and back gives the same date.
pub proof fn lemma_civil_date_of_days_from_civil(y: int, m: int, d: int)
    requires
        is_valid_date(y, m, d),
    ensures
        civil_date_of(days_from_civil(y, m, d)) == (y, m, d),
{
    let days = days_from_civil(y, m, d);
    let w = (y, m, d);
    assert(is_valid_date(w.0, w.1, w.2) && days_from_civil(w.0, w.1, w.2) == days);
    let c = civil_date_of(days);
    lemma_days_from_civil_injective(y, m, d, c.0, c.1, c.2);
}

/// Day counts follow the calendar order: a date whose day count is not
/// larger than another's comes no later in (year, month, day) order.
pub proof fn lemma_days_from_civil_ordered(y1: int, m1: int, d1: int, y2: int, m2: int, d2: int)
    requires
        is_valid_date(y1, m1, d1),
        is_valid_date(y2, m2, d2),
        days_from_civil(y1, m1, d1) <= days_from_civil(y2, m2, d2),
    ensures
        y1 < y2 || (y1 == y2 && (m1 < m2 || (m1 == m2 && d1 <= d2))),
{
    lemma_date_within_year(y1, m1, d1);
    lemma_date_within_year(y2, m2, d2);
    if y2 < y1 {
        lemma_year_start_increasing(y2 + 1, y1 + 1);
    }
    if y1 == y2 && m2 < m1 {
        lemma_month_ends_before(y1, m2, m1);
    }
}

} // verus!
