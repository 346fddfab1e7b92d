use pureclash::date_text::{format_civil_date, format_profile_time, format_utc_date};

#[test]
fn never_updated_has_no_date() {
    assert_eq!(format_profile_time(0), None);
}

#[test]
fn first_second_after_epoch() {
    assert_eq!(format_profile_time(1), Some("1970-01-01".to_string()));
    assert_eq!(format_profile_time(86_399), Some("1970-01-01".to_string()));
    assert_eq!(format_profile_time(86_400), Some("1970-01-02".to_string()));
}

#[test]
fn known_timestamp() {
    assert_eq!(format_profile_time(1_700_000_000), Some("2023-11-14".to_string()));
}

#[test]
fn leap_day_timestamp() {
    assert_eq!(format_utc_date(951_782_400), "2000-02-29");
}

#[test]
fn largest_timestamp_is_not_cut() {
    assert_eq!(format_utc_date(u64::MAX), "584554051223-11-09");
}

#[test]
fn fields_are_zero_padded() {
    assert_eq!(format_civil_date(7, 3, 4), "0007-03-04");
    assert_eq!(format_civil_date(0, 0, 0), "0000-00-00");
    assert_eq!(format_civil_date(12345, 12, 31), "12345-12-31");
    assert_eq!(format_civil_date(2024, 10, 5), "2024-10-05");
}

#[test]
fn same_day_same_text_other_day_other_text() {
    assert_eq!(format_profile_time(86_400), format_profile_time(172_799));
    assert_ne!(format_profile_time(172_799), format_profile_time(172_800));
    assert_ne!(format_profile_time(1), format_profile_time(86_400 * 365));
}

#[test]
fn texts_sort_like_timestamps() {
    let stamps: [u64; 7] = [1, 86_399, 951_782_400, 1_000_000_000, 1_700_000_000, 4_102_444_800, 253_402_300_799];
    let mut i = 1;
    while i < stamps.len() {
        let a = format_profile_time(stamps[i - 1]).unwrap();
        let b = format_profile_time(stamps[i]).unwrap();
        assert!(a <= b);
        i += 1;
    }
    assert_eq!(format_profile_time(253_402_300_799), Some("9999-12-31".to_string()));
}
