use pureclash::calendar::civil_from_days;

fn is_leap(y: i64) -> bool {
    y % 4 == 0 && (y % 100 != 0 || y % 400 == 0)
}

fn month_len(y: i64, m: u64) -> u64 {
    match m {
        2 => if is_leap(y) { 29 } else { 28 },
        4 | 6 | 9 | 11 => 30,
        _ => 31,
    }
}

#[test]
fn epoch_is_first_of_january_1970() {
    assert_eq!(civil_from_days(0), (1970, 1, 1));
}

#[test]
fn day_before_epoch() {
    assert_eq!(civil_from_days(-1), (1969, 12, 31));
}

#[test]
fn leap_day_of_2000() {
    assert_eq!(civil_from_days(11016), (2000, 2, 29));
    assert_eq!(civil_from_days(11017), (2000, 3, 1));
}

#[test]
fn century_without_leap_day() {
    // 1900 is not a leap year: February 28 is followed by March 1.
    assert_eq!(civil_from_days(-25567), (1900, 1, 1));
    assert_eq!(civil_from_days(-25567 + 58), (1900, 2, 28));
    assert_eq!(civil_from_days(-25567 + 59), (1900, 3, 1));
}

#[test]
fn first_day_of_2024() {
    assert_eq!(civil_from_days(19723), (2024, 1, 1));
}

#[test]
fn last_day_of_year_9999() {
    assert_eq!(civil_from_days(2932896), (9999, 12, 31));
}

#[test]
fn dates_before_the_common_era() {
    assert_eq!(civil_from_days(-719468), (0, 3, 1));
    assert_eq!(civil_from_days(-719469), (0, 2, 29));
    assert_eq!(civil_from_days(-1000000), (-768, 2, 4));
}

#[test]
fn largest_timestamp_day() {
    assert_eq!(civil_from_days(213503982334601), (584554051223, 11, 9));
}

#[test]
fn consecutive_days_are_consecutive_dates() {
    // Walks eight centuries day by day: each date is valid and follows the one before.
    let mut prev = civil_from_days(-400_000);
    let mut day: i64 = -399_999;
    while day <= 400_000 {
        let cur = civil_from_days(day);
        assert!(cur.1 >= 1 && cur.1 <= 12);
        assert!(cur.2 >= 1 && cur.2 <= month_len(cur.0, cur.1));
        let expected = if prev.2 < month_len(prev.0, prev.1) {
            (prev.0, prev.1, prev.2 + 1)
        } else if prev.1 < 12 {
            (prev.0, prev.1 + 1, 1)
        } else {
            (prev.0 + 1, 1, 1)
        };
        assert_eq!(cur, expected);
        prev = cur;
        day += 1;
    }
}

#[test]
fn extreme_day_counts() {
    assert_eq!(civil_from_days(i64::MIN), (-25252734927764585, 6, 7));
    assert_eq!(civil_from_days(i64::MAX - 719_468), (25252734927766554, 9, 25));
}
