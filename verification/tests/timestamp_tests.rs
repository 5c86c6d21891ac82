use chrono::{DateTime, NaiveDate, Utc};
use image_processor::timestamp::Timestamp;

#[test]
fn the_count_starts_with_1970() {
    let start = Timestamp::from_seconds(0).unwrap();
    assert_eq!(start.seconds(), 0);
    assert_eq!(start.date(), "1970-01-01");
    assert_eq!(Timestamp::from_seconds(-1).unwrap().date(), "1969-12-31");
    assert_eq!(Timestamp::from_seconds(86_399).unwrap().date(), "1970-01-01");
    assert_eq!(Timestamp::from_seconds(86_400).unwrap().date(), "1970-01-02");
}

#[test]
fn a_date_is_written_with_year_month_and_day() {
    let noon = NaiveDate::from_ymd_opt(2024, 1, 15).unwrap().and_hms_opt(12, 0, 0).unwrap();
    let time = Timestamp::from_seconds(noon.and_utc().timestamp()).unwrap();
    assert_eq!(time.seconds(), 1_705_320_000);
    assert_eq!(time.date(), "2024-01-15");
    let leap_day = NaiveDate::from_ymd_opt(2024, 2, 29).unwrap().and_hms_opt(23, 59, 59).unwrap();
    assert_eq!(Timestamp::from_seconds(leap_day.and_utc().timestamp()).unwrap().date(), "2024-02-29");
}

#[test]
fn years_beyond_four_digits_carry_a_sign() {
    let far = NaiveDate::from_ymd_opt(12_024, 1, 15).unwrap().and_hms_opt(0, 0, 0).unwrap();
    assert_eq!(Timestamp::from_seconds(far.and_utc().timestamp()).unwrap().date(), "+12024-01-15");
    let early = NaiveDate::from_ymd_opt(-44, 3, 15).unwrap().and_hms_opt(0, 0, 0).unwrap();
    assert_eq!(Timestamp::from_seconds(early.and_utc().timestamp()).unwrap().date(), "-0044-03-15");
    let old = NaiveDate::from_ymd_opt(476, 9, 4).unwrap().and_hms_opt(0, 0, 0).unwrap();
    assert_eq!(Timestamp::from_seconds(old.and_utc().timestamp()).unwrap().date(), "0476-09-04");
}

#[test]
fn the_calendar_has_two_ends() {
    let last = DateTime::<Utc>::MAX_UTC.timestamp();
    let first = DateTime::<Utc>::MIN_UTC.timestamp();
    assert_eq!(Timestamp::from_seconds(last).unwrap().date(), "+262142-12-31");
    assert_eq!(Timestamp::from_seconds(first).unwrap().date(), "-262143-01-01");
    assert!(Timestamp::from_seconds(last + 1).is_none());
    assert!(Timestamp::from_seconds(first - 1).is_none());
    assert!(Timestamp::from_seconds(i64::MAX).is_none());
    assert!(Timestamp::from_seconds(i64::MIN).is_none());
}

#[test]
fn seconds_between_does_not_mind_the_order() {
    let a = Timestamp::from_seconds(1_000).unwrap();
    let b = Timestamp::from_seconds(4_600).unwrap();
    assert_eq!(a.seconds_between(&b), 3_600);
    assert_eq!(b.seconds_between(&a), 3_600);
    assert_eq!(a.seconds_between(&a), 0);
    let before = Timestamp::from_seconds(-500).unwrap();
    assert_eq!(before.seconds_between(&a), 1_500);
}

#[test]
fn seconds_between_spans_the_whole_calendar() {
    let last = DateTime::<Utc>::MAX_UTC.timestamp();
    let first = DateTime::<Utc>::MIN_UTC.timestamp();
    let a = Timestamp::from_seconds(first).unwrap();
    let b = Timestamp::from_seconds(last).unwrap();
    assert_eq!(a.seconds_between(&b), (last as i128 - first as i128) as u64);
}

#[test]
fn a_time_is_cut_to_the_second() {
    let cut = Timestamp::cut_to_second(1_705_320_000, 999_999_999).unwrap();
    assert_eq!(cut.seconds(), 1_705_320_000);
    // 0.9 s and 21601.1 s are 21601 whole seconds apart
    let early = Timestamp::cut_to_second(0, 900_000_000).unwrap();
    let late = Timestamp::cut_to_second(21_601, 100_000_000).unwrap();
    assert_eq!(early.seconds_between(&late), 21_601);
    assert_eq!(Timestamp::cut_to_second(-1, 500_000_000).unwrap().date(), "1969-12-31");
    assert!(Timestamp::cut_to_second(i64::MAX, 0).is_none());
}
