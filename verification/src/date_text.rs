//! Decimal text of dates: "YYYY-MM-DD" with zero-padded fields.
use vstd::prelude::*;
use crate::calendar::{
    civil_date_of, civil_from_days, days_before_year, lemma_civil_date_of_valid,
    lemma_date_within_year, lemma_days_from_civil_injective, lemma_days_from_civil_ordered,
    lemma_year_from_days_nonnegative, lemma_year_start_increasing,
};
use vstd::arithmetic::div_mod::lemma_fundamental_div_mod;

verus! {

/// The ASCII character of the decimal digit `v` (0 through 9).
pub open spec fn digit_char(v: nat) -> char {
    (v + 48) as char
}

/// The decimal digits of `n`, most significant first, without leading zeros
/// ("0" for zero).
pub open spec fn decimal_digits(n: nat) -> Seq<char>
    decreases n,
{
    if n < 10 {
        seq![digit_char(n)]
    } else {
        decimal_digits(n / 10).push(digit_char(n % 10))
    }
}

/// The decimal digits of `n` preceded by as many '0' as it takes to reach
/// `width` characters; longer numbers are not cut.
pub open spec fn zero_padded(n: nat, width: nat) -> Seq<char> {
    let digits = decimal_digits(n);
    let pad: nat = if digits.len() < width { (width - digits.len()) as nat } else { 0 };
    Seq::new(pad, |i: int| '0') + digits
}

/// The text "YYYY-MM-DD" of a date: the year padded to four digits, month and
/// day to two, joined by '-'.
pub open spec fn date_text(year: nat, month: nat, day: nat) -> Seq<char> {
    zero_padded(year, 4) + seq!['-'] + zero_padded(month, 2) + seq!['-'] + zero_padded(day, 2)
}

/// A one-character string holding the decimal digit `v`.
fn digit_str(v: u64) -> (s: &'static str)
    requires
        v < 10,
    ensures
        s@ == seq![digit_char(v as nat)],
{
    proof {
        reveal_strlit("0");
        reveal_strlit("1");
        reveal_strlit("2");
        reveal_strlit("3");
        reveal_strlit("4");
        reveal_strlit("5");
        reveal_strlit("6");
        reveal_strlit("7");
        reveal_strlit("8");
        reveal_strlit("9");
    }
    match v {
        0 => "0",
        1 => "1",
        2 => "2",
        3 => "3",
        4 => "4",
        5 => "5",
        6 => "6",
        7 => "7",
        8 => "8",
        _ => "9",
    }
}

/// Appends the decimal digits of `n` to `out`.
fn push_decimal(out: &mut String, n: u64)
    ensures
        final(out)@ == old(out)@ + decimal_digits(n as nat),
    decreases n,
{
    if n >= 10 {
        push_decimal(out, n / 10);
    }
    out.append(digit_str(n % 10));
    assert(old(out)@ + decimal_digits(n as nat) =~= out@);
}

/// Appends `n` zero-padded to `width` characters to `out`.
fn push_zero_padded(out: &mut String, n: u64, width: usize)
    ensures
        final(out)@ == old(out)@ + zero_padded(n as nat, width as nat),
{
    let mut digits = String::new();
    push_decimal(&mut digits, n);
    let len = digits.as_str().unicode_len();
    let mut i = len;
    while i < width
        invariant
            len == decimal_digits(n as nat).len(),
            len <= i,
            i <= width || i == len,
            out@ == old(out)@ + Seq::new((i - len) as nat, |k: int| '0'),
        decreases width - i,
    {
        proof {
            reveal_strlit("0");
        }
        out.append("0");
        i = i + 1;
        assert(out@ =~= old(out)@ + Seq::new((i - len) as nat, |k: int| '0'));
    }
    out.append(digits.as_str());
    assert(out@ =~= old(out)@ + zero_padded(n as nat, width as nat));
}

/// The text "YYYY-MM-DD" of the date `year`-`month`-`day`.
pub fn format_civil_date(year: u64, month: u64, day: u64) -> (text: String)
    ensures
        text@ == date_text(year as nat, month as nat, day as nat),
{
    let mut text = String::new();
    push_zero_padded(&mut text, year, 4);
    proof {
        reveal_strlit("-");
    }
    text.append("-");
    push_zero_padded(&mut text, month, 2);
    text.append("-");
    push_zero_padded(&mut text, day, 2);
    assert(text@ =~= date_text(year as nat, month as nat, day as nat));
    text
}

/// The number of seconds in a day.
pub const SECONDS_PER_DAY: u64 = 86_400;

/// The UTC calendar date of a UNIX timestamp in seconds, as "YYYY-MM-DD".
pub fn format_utc_date(timestamp: u64) -> (text: String)
    ensures
        ({
            let date = civil_date_of((timestamp / SECONDS_PER_DAY) as int);
            &&& date.0 >= 1970
            &&& text@ == date_text(date.0 as nat, date.1 as nat, date.2 as nat)
        }),
{
    let days = timestamp / SECONDS_PER_DAY;
    let (year, month, day) = civil_from_days(days as i64);
    proof {
        lemma_year_from_days_nonnegative(year as int, month as int, day as int);
    }
    format_civil_date(year as u64, month, day)
}

/// The text shown for the time a profile was last updated: none for a
/// timestamp of 0, which means the profile was never updated, and otherwise
/// the UTC date of the timestamp as "YYYY-MM-DD".
pub open spec fn profile_time_text(timestamp: nat) -> Option<Seq<char>> {
    if timestamp == 0 {
        None
    } else {
        let date = civil_date_of((timestamp / (SECONDS_PER_DAY as nat)) as int);
        Some(date_text(date.0 as nat, date.1 as nat, date.2 as nat))
    }
}

/// The text shown for the time a profile was last updated: `None` for a
/// timestamp of 0, which means the profile was never updated, and otherwise
/// the UTC date of the timestamp as "YYYY-MM-DD".
pub fn format_profile_time(timestamp: u64) -> (text: Option<String>)
    ensures
        text.deep_view() == profile_time_text(timestamp as nat),
{
    if timestamp == 0 {
        return None;
    }
    let date = format_utc_date(timestamp);
    Some(date)
}

/// The number that a string of decimal digits stands for.
pub open spec fn digits_value(s: Seq<char>) -> int
    decreases s.len(),
{
    if s.len() == 0 {
        0
    } else {
        digits_value(s.drop_last()) * 10 + (s.last() as int - 48)
    }
}

/// The digits of `n` stand for `n`.
proof fn lemma_decimal_digits_value(n: nat)
    ensures
        digits_value(decimal_digits(n)) == n,
        1 <= decimal_digits(n).len(),
        n < 10 ==> decimal_digits(n).len() == 1,
        n < 100 ==> decimal_digits(n).len() <= 2,
    decreases n,
{
    lemma_fundamental_div_mod(n as int, 10);
    assert(digit_char(n % 10) as int == n % 10 + 48);
    if n >= 10 {
        lemma_decimal_digits_value(n / 10);
        assert(decimal_digits(n).drop_last() =~= decimal_digits(n / 10));
    } else {
        assert(decimal_digits(n).drop_last() =~= Seq::<char>::empty());
        assert(digits_value(Seq::<char>::empty()) == 0);
    }
}

/// Leading zeros do not change the number that digits stand for.
proof fn lemma_zero_prefix_value(k: nat, s: Seq<char>)
    ensures
        digits_value(Seq::new(k, |i: int| '0') + s) == digits_value(s),
    decreases s.len() + k,
{
    let zeros = Seq::new(k, |i: int| '0');
    if s.len() == 0 {
        assert(zeros + s =~= zeros);
        if k > 0 {
            assert(zeros.drop_last() =~= Seq::new((k - 1) as nat, |i: int| '0') + s);
            lemma_zero_prefix_value((k - 1) as nat, s);
        }
    } else {
        assert((zeros + s).drop_last() =~= zeros + s.drop_last());
        lemma_zero_prefix_value(k, s.drop_last());
    }
}

/// A zero-padded number stands for that number.
pub proof fn lemma_zero_padded_value(n: nat, width: nat)
    ensures
        digits_value(zero_padded(n, width)) == n,
{
    lemma_decimal_digits_value(n);
    let digits = decimal_digits(n);
    let pad: nat = if digits.len() < width { (width - digits.len()) as nat } else { 0 };
    lemma_zero_prefix_value(pad, digits);
}

/// The digits of a number are decimal digit characters.
proof fn lemma_decimal_digits_are_digits(n: nat)
    ensures
        forall|k: int| 0 <= k < decimal_digits(n).len() ==> '0' <= #[trigger] decimal_digits(n)[k] <= '9',
    decreases n,
{
    let ds = decimal_digits(n);
    assert(digit_char(n % 10) as int == n % 10 + 48);
    if n >= 10 {
        lemma_decimal_digits_are_digits(n / 10);
        let prev = decimal_digits(n / 10);
        assert forall|k: int| 0 <= k < ds.len() implies '0' <= #[trigger] ds[k] <= '9' by {
            if k < prev.len() {
                assert(ds[k] == prev[k]);
            }
        }
    }
}

/// A number padded to `width` places is made of decimal digit characters,
/// has `width` of them unless its digits are more, and stands for the number.
pub proof fn lemma_zero_padded_shape(n: nat, width: nat)
    ensures
        forall|k: int| 0 <= k < zero_padded(n, width).len() ==> '0' <= #[trigger] zero_padded(n, width)[k] <= '9',
        zero_padded(n, width).len() >= width,
        n < 10 ==> zero_padded(n, width).len() == if width > 1 { width } else { 1 },
        10 <= n < 100 ==> zero_padded(n, width).len() == if width > 2 { width } else { 2 },
        digits_value(zero_padded(n, width)) == n,
{
    lemma_decimal_digits_are_digits(n);
    lemma_decimal_digits_value(n);
    lemma_zero_padded_value(n, width);
    reveal_with_fuel(decimal_digits, 2);
    let digits = decimal_digits(n);
    let pad: nat = if digits.len() < width { (width - digits.len()) as nat } else { 0 };
    let z = zero_padded(n, width);
    assert forall|k: int| 0 <= k < z.len() implies '0' <= #[trigger] z[k] <= '9' by {
        if k >= pad {
            assert(z[k] == digits[k - pad]);
        }
    }
}

/// A date's text is its year's digits, '-', two digits of the month, '-',
/// and two digits of the day (months and days from 1 to 99).
pub proof fn lemma_date_text_fields(y: nat, m: nat, d: nat)
    requires
        1 <= m < 100,
        1 <= d < 100,
    ensures
        ({
            let t = date_text(y, m, d);
            let l = t.len() - 6;
            &&& l >= 4
            &&& t[l] == '-'
            &&& t[l + 3] == '-'
            &&& digits_value(t.subrange(0, l)) == y
            &&& digits_value(t.subrange(l + 1, l + 3)) == m
            &&& digits_value(t.subrange(l + 4, l + 6)) == d
            &&& forall|k: int| 0 <= k < t.len() && k != l && k != l + 3 ==> '0' <= #[trigger] t[k] <= '9'
        }),
{
    lemma_zero_padded_shape(y, 4);
    lemma_zero_padded_shape(m, 2);
    lemma_zero_padded_shape(d, 2);
    let t = date_text(y, m, d);
    let ys = zero_padded(y, 4);
    let ms = zero_padded(m, 2);
    let ds = zero_padded(d, 2);
    let l = t.len() - 6;
    assert(l == ys.len());
    assert(t.subrange(0, l) =~= ys);
    assert(t.subrange(l + 1, l + 3) =~= ms);
    assert(t.subrange(l + 4, l + 6) =~= ds);
    assert forall|k: int| 0 <= k < t.len() && k != l && k != l + 3 implies '0' <= #[trigger] t[k] <= '9' by {
        if k < l {
            assert(t[k] == ys[k]);
        } else if k < l + 3 {
            assert(t[k] == ms[k - l - 1]);
        } else {
            assert(t[k] == ds[k - l - 4]);
        }
    }
}

/// Distinct dates have distinct texts (months and days below 100).
pub proof fn lemma_date_text_injective(y1: nat, m1: nat, d1: nat, y2: nat, m2: nat, d2: nat)
    requires
        1 <= m1 < 100,
        1 <= d1 < 100,
        1 <= m2 < 100,
        1 <= d2 < 100,
        date_text(y1, m1, d1) == date_text(y2, m2, d2),
    ensures
        y1 == y2,
        m1 == m2,
        d1 == d2,
{
    lemma_decimal_digits_value(m1);
    lemma_decimal_digits_value(d1);
    lemma_decimal_digits_value(m2);
    lemma_decimal_digits_value(d2);
    let t = date_text(y1, m1, d1);
    let ya = zero_padded(y1, 4);
    let yb = zero_padded(y2, 4);
    assert(zero_padded(m1, 2).len() == 2 && zero_padded(d1, 2).len() == 2);
    assert(zero_padded(m2, 2).len() == 2 && zero_padded(d2, 2).len() == 2);
    let l = t.len() - 6;
    assert(ya.len() == l && yb.len() == l);
    assert(t.subrange(0, l) =~= ya);
    assert(date_text(y2, m2, d2).subrange(0, l) =~= yb);
    assert(t.subrange(l + 1, l + 3) =~= zero_padded(m1, 2));
    assert(date_text(y2, m2, d2).subrange(l + 1, l + 3) =~= zero_padded(m2, 2));
    assert(t.subrange(l + 4, l + 6) =~= zero_padded(d1, 2));
    assert(date_text(y2, m2, d2).subrange(l + 4, l + 6) =~= zero_padded(d2, 2));
    lemma_zero_padded_value(y1, 4);
    lemma_zero_padded_value(y2, 4);
    lemma_zero_padded_value(m1, 2);
    lemma_zero_padded_value(m2, 2);
    lemma_zero_padded_value(d1, 2);
    lemma_zero_padded_value(d2, 2);
}

/// Two nonzero timestamps get the same "last updated" text exactly when they
/// fall on the same UTC day.
pub proof fn lemma_profile_time_text_same_day(t1: nat, t2: nat)
    requires
        t1 > 0,
        t2 > 0,
    ensures
        (profile_time_text(t1) == profile_time_text(t2)) <==> (t1 / (SECONDS_PER_DAY as nat) == t2 / (SECONDS_PER_DAY as nat)),
{
    let n1 = (t1 / (SECONDS_PER_DAY as nat)) as int;
    let n2 = (t2 / (SECONDS_PER_DAY as nat)) as int;
    let a = civil_date_of(n1);
    let b = civil_date_of(n2);
    lemma_civil_date_of_valid(n1);
    lemma_civil_date_of_valid(n2);
    if profile_time_text(t1) == profile_time_text(t2) {
        lemma_year_from_days_nonnegative(a.0, a.1, a.2);
        lemma_year_from_days_nonnegative(b.0, b.1, b.2);
        assert(date_text(a.0 as nat, a.1 as nat, a.2 as nat) == date_text(b.0 as nat, b.1 as nat, b.2 as nat));
        lemma_date_text_injective(a.0 as nat, a.1 as nat, a.2 as nat, b.0 as nat, b.1 as nat, b.2 as nat);
    }
}

/// Lexicographic order of texts, character by character, a prefix coming
/// first: the order of `str` and `String`.
pub open spec fn text_le(a: Seq<char>, b: Seq<char>) -> bool
    decreases a.len(),
{
    if a.len() == 0 {
        true
    } else if b.len() == 0 {
        false
    } else if a[0] != b[0] {
        (a[0] as int) < (b[0] as int)
    } else {
        text_le(a.drop_first(), b.drop_first())
    }
}

/// The four digits of a number from 1000 to 9999.
spec fn four_digits(n: nat) -> Seq<char> {
    seq![digit_char(n / 1000), digit_char(n / 100 % 10), digit_char(n / 10 % 10), digit_char(n % 10)]
}

/// The two digits of a number below 100.
spec fn two_digits(n: nat) -> Seq<char> {
    seq![digit_char(n / 10), digit_char(n % 10)]
}

/// A four-digit number padded to four places is its four digits.
proof fn lemma_four_digits(n: nat)
    requires
        1000 <= n < 10000,
    ensures
        zero_padded(n, 4) == four_digits(n),
{
    reveal_with_fuel(decimal_digits, 4);
    assert(zero_padded(n, 4) =~= four_digits(n));
}

/// A number from 1 to 99 padded to two places is its two digits.
proof fn lemma_two_digits(n: nat)
    requires
        1 <= n < 100,
    ensures
        zero_padded(n, 2) == two_digits(n),
{
    reveal_with_fuel(decimal_digits, 2);
    assert(zero_padded(n, 2) =~= two_digits(n));
}

/// For timestamps up to the end of year 9999, the "last updated" texts sort
/// like the timestamps.
pub proof fn lemma_profile_time_text_ordered(t1: nat, t2: nat)
    requires
        0 < t1 <= t2 < 253_402_300_800,
    ensures
        text_le(profile_time_text(t1)->0, profile_time_text(t2)->0),
{
    let n1 = (t1 / (SECONDS_PER_DAY as nat)) as int;
    let n2 = (t2 / (SECONDS_PER_DAY as nat)) as int;
    assert(n1 <= n2 <= 2932896);
    let a = civil_date_of(n1);
    let b = civil_date_of(n2);
    lemma_civil_date_of_valid(n1);
    lemma_civil_date_of_valid(n2);
    lemma_year_from_days_nonnegative(a.0, a.1, a.2);
    lemma_days_from_civil_ordered(a.0, a.1, a.2, b.0, b.1, b.2);
    lemma_date_within_year(b.0, b.1, b.2);
    if b.0 > 10000 {
        lemma_year_start_increasing(10000, b.0);
    }
    assert(days_before_year(10000) == 2932897);
    assert(b.0 <= 9999);
    lemma_four_digits(a.0 as nat);
    lemma_four_digits(b.0 as nat);
    lemma_two_digits(a.1 as nat);
    lemma_two_digits(b.1 as nat);
    lemma_two_digits(a.2 as nat);
    lemma_two_digits(b.2 as nat);
    let ta = date_text(a.0 as nat, a.1 as nat, a.2 as nat);
    let tb = date_text(b.0 as nat, b.1 as nat, b.2 as nat);
    assert(ta =~= four_digits(a.0 as nat) + seq!['-'] + two_digits(a.1 as nat) + seq!['-'] + two_digits(a.2 as nat));
    assert(tb =~= four_digits(b.0 as nat) + seq!['-'] + two_digits(b.1 as nat) + seq!['-'] + two_digits(b.2 as nat));
    lemma_text_le_dates(a.0 as nat, a.1 as nat, a.2 as nat, b.0 as nat, b.1 as nat, b.2 as nat);
}

/// The texts of dates of four-digit years sort like the dates.
proof fn lemma_text_le_dates(y1: nat, m1: nat, d1: nat, y2: nat, m2: nat, d2: nat)
    requires
        1000 <= y1 < 10000,
        1000 <= y2 < 10000,
        1 <= m1 < 100,
        1 <= m2 < 100,
        1 <= d1 < 100,
        1 <= d2 < 100,
        y1 < y2 || (y1 == y2 && (m1 < m2 || (m1 == m2 && d1 <= d2))),
    ensures
        text_le(
            four_digits(y1) + seq!['-'] + two_digits(m1) + seq!['-'] + two_digits(d1),
            four_digits(y2) + seq!['-'] + two_digits(m2) + seq!['-'] + two_digits(d2),
        ),
{
    let a = four_digits(y1) + seq!['-'] + two_digits(m1) + seq!['-'] + two_digits(d1);
    let b = four_digits(y2) + seq!['-'] + two_digits(m2) + seq!['-'] + two_digits(d2);
    let ga = seq![
        digit_char(y1 / 1000), digit_char(y1 / 100 % 10), digit_char(y1 / 10 % 10), digit_char(y1 % 10), '-',
        digit_char(m1 / 10), digit_char(m1 % 10), '-', digit_char(d1 / 10), digit_char(d1 % 10)
    ];
    let gb = seq![
        digit_char(y2 / 1000), digit_char(y2 / 100 % 10), digit_char(y2 / 10 % 10), digit_char(y2 % 10), '-',
        digit_char(m2 / 10), digit_char(m2 % 10), '-', digit_char(d2 / 10), digit_char(d2 % 10)
    ];
    assert(a =~= ga);
    assert(b =~= gb);
    lemma_four_digit_parts(y1);
    lemma_four_digit_parts(y2);
    lemma_fundamental_div_mod(m1 as int, 10);
    lemma_fundamental_div_mod(m2 as int, 10);
    lemma_fundamental_div_mod(d1 as int, 10);
    lemma_fundamental_div_mod(d2 as int, 10);
    let da = seq![y1 / 1000, y1 / 100 % 10, y1 / 10 % 10, y1 % 10, 0, m1 / 10, m1 % 10, 0, d1 / 10, d1 % 10];
    let db = seq![y2 / 1000, y2 / 100 % 10, y2 / 10 % 10, y2 % 10, 0, m2 / 10, m2 % 10, 0, d2 / 10, d2 % 10];
    assert forall|j: int| 0 <= j < 10 && j != 4 && j != 7 implies #[trigger] ga[j] == digit_char(da[j]) && gb[j] == digit_char(db[j]) && da[j] < 10 && db[j] < 10 by {}
    assert(ga[4] == gb[4] && ga[7] == gb[7]);
    if da == db {
        assert(ga =~= gb);
        lemma_text_le_refl(ga);
    } else {
        let i = choose|i: int| 0 <= i < 10 && da[i] != db[i] && forall|j: int| 0 <= j < i ==> da[j] == db[j];
        lemma_first_difference(da, db);
        assert(da[i] < db[i]);
        assert forall|j: int| 0 <= j < i implies ga[j] == gb[j] by {
            assert(da[j] == db[j]);
        }
        assert(digit_char(da[i]) as int == da[i] + 48);
        assert(digit_char(db[i]) as int == db[i] + 48);
        lemma_text_le_at(ga, gb, i);
    }
}

/// A number below 10000 is made of its four digits.
proof fn lemma_four_digit_parts(n: nat)
    requires
        n < 10000,
    ensures
        n == 1000 * (n / 1000) + 100 * (n / 100 % 10) + 10 * (n / 10 % 10) + n % 10,
        n / 1000 < 10,
{
    lemma_fundamental_div_mod(n as int, 10);
    lemma_fundamental_div_mod((n / 10) as int, 10);
    lemma_fundamental_div_mod((n / 100) as int, 10);
    lemma_fundamental_div_mod(n as int, 100);
    lemma_fundamental_div_mod(n as int, 1000);
    assert(n / 10 / 10 == n / 100) by {
        vstd::arithmetic::div_mod::lemma_div_denominator(n as int, 10, 10);
    }
    assert(n / 100 / 10 == n / 1000) by {
        vstd::arithmetic::div_mod::lemma_div_denominator(n as int, 100, 10);
    }
}

/// Two distinct lists of equal length have a first position where they
/// differ.
proof fn lemma_first_difference(da: Seq<nat>, db: Seq<nat>)
    requires
        da.len() == db.len(),
        da != db,
    ensures
        exists|i: int| 0 <= i < da.len() && da[i] != db[i] && forall|j: int| 0 <= j < i ==> da[j] == db[j],
{
    let k = choose|k: int| 0 <= k < da.len() && da[k] != db[k];
    assert(exists|k: int| 0 <= k < da.len() && da[k] != db[k]) by {
        if forall|k: int| 0 <= k < da.len() ==> da[k] == db[k] {
            assert(da =~= db);
        }
    }
    lemma_first_difference_below(da, db, k);
}

/// A position where two lists differ has a first such position at or before
/// it.
proof fn lemma_first_difference_below(da: Seq<nat>, db: Seq<nat>, k: int)
    requires
        da.len() == db.len(),
        0 <= k < da.len(),
        da[k] != db[k],
    ensures
        exists|i: int| 0 <= i < da.len() && da[i] != db[i] && forall|j: int| 0 <= j < i ==> da[j] == db[j],
    decreases k,
{
    if exists|j: int| 0 <= j < k && da[j] != db[j] {
        let j = choose|j: int| 0 <= j < k && da[j] != db[j];
        lemma_first_difference_below(da, db, j);
    } else {
        assert(forall|j: int| 0 <= j < k ==> da[j] == db[j]);
    }
}

/// Texts that agree up to position `i` and have a smaller character there
/// come first.
proof fn lemma_text_le_at(a: Seq<char>, b: Seq<char>, i: int)
    requires
        a.len() == b.len(),
        0 <= i < a.len(),
        forall|j: int| 0 <= j < i ==> a[j] == b[j],
        (a[i] as int) < (b[i] as int),
    ensures
        text_le(a, b),
    decreases i,
{
    if i > 0 {
        assert(a[0] == b[0]);
        lemma_text_le_at(a.drop_first(), b.drop_first(), i - 1);
    }
}

/// Every text comes no later than itself.
proof fn lemma_text_le_refl(a: Seq<char>)
    ensures
        text_le(a, a),
    decreases a.len(),
{
    if a.len() > 0 {
        lemma_text_le_refl(a.drop_first());
    }
}

} // verus!
