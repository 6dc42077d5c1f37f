use git_size_history::calendar::{
    day_number, timestamp_is_valid, CalendarDate, MAX_TIMESTAMP, MIN_TIMESTAMP,
};

#[test]
fn day_number_counts_from_the_epoch() {
    assert_eq!(day_number(0), 0);
    assert_eq!(day_number(86_399), 0);
    assert_eq!(day_number(86_400), 1);
    assert_eq!(day_number(1_431_648_000), 16_570);
}

#[test]
fn day_number_rounds_down_before_the_epoch() {
    assert_eq!(day_number(-1), -1);
    assert_eq!(day_number(-86_400), -1);
    assert_eq!(day_number(-86_401), -2);
}

#[test]
fn timestamps_within_the_calendar_are_valid() {
    assert!(timestamp_is_valid(0));
    assert!(timestamp_is_valid(MIN_TIMESTAMP));
    assert!(timestamp_is_valid(MAX_TIMESTAMP));
}

#[test]
fn timestamps_beyond_the_calendar_are_invalid() {
    assert!(!timestamp_is_valid(MIN_TIMESTAMP - 1));
    assert!(!timestamp_is_valid(MAX_TIMESTAMP + 1));
    assert!(!timestamp_is_valid(i64::MAX));
    assert!(!timestamp_is_valid(i64::MIN));
}

#[test]
fn calendar_dates_compare_by_day() {
    assert_eq!(CalendarDate { days: 3 }, CalendarDate { days: 3 });
    assert_ne!(CalendarDate { days: 3 }, CalendarDate { days: 4 });
}
