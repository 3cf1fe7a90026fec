use aw_time_limit::clock::{bounds_from_midnight, civil_date, logical_day_at, range, today, LogicalDay};
use aw_time_limit::decimal::{parse_json_millis, parse_millis, parse_unsigned};
use aw_time_limit::duration::{parse_duration, seconds_to_string, DurationError};
use aw_time_limit::limiter::{sleep_millis, status_lines, Notice, TimeLimiter, DEFAULT_LIMIT_MILLIS};
use aw_time_limit::query::{parse_query_response, query_body, query_body_for, QueryError, QUERY_PREFIX, QUERY_SUFFIX};
use aw_time_limit::store::{extension_record, find_extension, load_extension, parse_record, store_record, StoreError};

const DAY_2024_03_05: i64 = 19787;

#[test]
fn logical_day_before_and_after_day_start() {
    let offset: i32 = 3600;
    let local_midnight = DAY_2024_03_05 * 86400 - offset as i64;
    let three_am = logical_day_at(local_midnight + 3 * 3600, offset);
    let five_am = logical_day_at(local_midnight + 5 * 3600, offset);
    assert_eq!(three_am.epoch_day, DAY_2024_03_05 - 1);
    assert_eq!(five_am.epoch_day, DAY_2024_03_05);
    assert_eq!(logical_day_at(local_midnight + 4 * 3600, offset).epoch_day, DAY_2024_03_05);
}

#[test]
fn logical_day_before_epoch() {
    assert_eq!(logical_day_at(0, 0).epoch_day, -1);
    assert_eq!(logical_day_at(-86400, 0).epoch_day, -2);
    assert_eq!(logical_day_at(14400, 0).epoch_day, 0);
}

#[test]
fn range_is_one_day_long() {
    let (start, end) = bounds_from_midnight(1_000_000).unwrap();
    assert_eq!(start, 1_000_000 + 14400);
    assert_eq!(end - start, 86400);
    assert_eq!(bounds_from_midnight(i64::MAX - 10), None);
}

#[test]
fn civil_date_of_day_numbers() {
    assert_eq!(civil_date(LogicalDay { epoch_day: 0 }), Some((1970, 1, 1)));
    assert_eq!(civil_date(LogicalDay { epoch_day: DAY_2024_03_05 }), Some((2024, 3, 5)));
    assert_eq!(civil_date(LogicalDay { epoch_day: 1i64 << 40 }), None);
}

#[test]
fn store_round_trip() {
    let record = extension_record(2024, 3, 5, 120_000);
    assert_eq!(record, b"03/05/24 120".to_vec());
    assert_eq!(find_extension(&record, 2024, 3, 5), Ok(120_000));
    assert_eq!(find_extension(&record, 2024, 3, 6), Ok(0));
}

#[test]
fn store_round_trip_through_day() {
    let day = LogicalDay { epoch_day: DAY_2024_03_05 };
    let record = store_record(day, 90_500).unwrap();
    assert_eq!(record, b"03/05/24 90.500".to_vec());
    assert_eq!(load_extension(Some(&record), day), Ok(90_500));
    assert_eq!(load_extension(Some(&record), LogicalDay { epoch_day: DAY_2024_03_05 + 1 }), Ok(0));
}

#[test]
fn store_overwrite_forgets_earlier_day() {
    let d1 = LogicalDay { epoch_day: DAY_2024_03_05 };
    let d2 = LogicalDay { epoch_day: DAY_2024_03_05 + 1 };
    let _first = store_record(d1, 60_000).unwrap();
    let second = store_record(d2, 30_000).unwrap();
    assert_eq!(load_extension(Some(&second), d1), Ok(0));
    assert_eq!(load_extension(Some(&second), d2), Ok(30_000));
}

#[test]
fn missing_store_means_no_extension() {
    assert_eq!(load_extension(None, LogicalDay { epoch_day: 5 }), Ok(0));
    assert_eq!(find_extension(b"", 2024, 3, 5), Ok(0));
}

#[test]
fn malformed_store_lines() {
    assert_eq!(find_extension(b"garbage", 2024, 3, 5), Err(StoreError::MalformedLine));
    assert_eq!(find_extension(b"03/05/24", 2024, 3, 5), Err(StoreError::MalformedLine));
    assert_eq!(find_extension(b"03/05/24 1 2", 2024, 3, 5), Err(StoreError::MalformedLine));
    assert_eq!(find_extension(b"02/30/24 10", 2024, 2, 30), Err(StoreError::MalformedLine));
    assert_eq!(find_extension(b"03/05/24 ten", 2024, 3, 5), Err(StoreError::MalformedLine));
    assert_eq!(find_extension(b"03/04/24 5\n\n", 2024, 3, 5), Err(StoreError::MalformedLine));
}

#[test]
fn first_matching_record_wins() {
    let content = b"03/04/24 5\n03/05/24 7\r\n03/05/24 9\n";
    assert_eq!(find_extension(content, 2024, 3, 5), Ok(7000));
    assert_eq!(find_extension(content, 2024, 3, 6), Ok(0));
}

#[test]
fn malformed_line_after_match_fails_load() {
    let trailing_bad = b"03/05/24 7\nbad";
    assert_eq!(find_extension(trailing_bad, 2024, 3, 5), Err(StoreError::MalformedLine));
    let not_utf8 = b"03/05/24 7\n03/06/24 \xff\xfe";
    assert_eq!(find_extension(not_utf8, 2024, 3, 5), Err(StoreError::MalformedLine));
}

#[test]
fn record_fields_and_years() {
    assert_eq!(parse_record(b"  02/29/24\t12.5  "), Some(((2024, 2, 29), 12_500)));
    assert_eq!(parse_record(b"12/31/99 1"), Some(((1999, 12, 31), 1000)));
    assert_eq!(parse_record(b"02/29/23 1"), None);
}

#[test]
fn limiter_edge_trigger() {
    let day = LogicalDay { epoch_day: DAY_2024_03_05 };
    let mut limiter = TimeLimiter::new();
    let ticks = [
        DEFAULT_LIMIT_MILLIS - 1000,
        DEFAULT_LIMIT_MILLIS + 1000,
        DEFAULT_LIMIT_MILLIS + 1000,
        DEFAULT_LIMIT_MILLIS - 1000,
        DEFAULT_LIMIT_MILLIS + 1000,
    ];
    let notices: Vec<Option<Notice>> = ticks.iter().map(|&a| limiter.run_next(day, 0, a)).collect();
    assert_eq!(
        notices,
        vec![
            None,
            Some(Notice::DefaultLimitReached),
            None,
            None,
            Some(Notice::DefaultLimitReached)
        ]
    );
}

#[test]
fn limiter_new_day_notifies_again() {
    let mut limiter = TimeLimiter::new();
    let over = DEFAULT_LIMIT_MILLIS + 1;
    assert_eq!(limiter.run_next(LogicalDay { epoch_day: 1 }, 0, over), Some(Notice::DefaultLimitReached));
    assert_eq!(limiter.run_next(LogicalDay { epoch_day: 2 }, 0, over), Some(Notice::DefaultLimitReached));
    assert_eq!(limiter.last_overage_day, Some(LogicalDay { epoch_day: 2 }));
}

#[test]
fn limiter_extended_notice() {
    let mut limiter = TimeLimiter::new();
    let day = LogicalDay { epoch_day: 3 };
    assert_eq!(limiter.run_next(day, 60_000, DEFAULT_LIMIT_MILLIS + 30_000), None);
    assert_eq!(limiter.extension_millis, 60_000);
    assert_eq!(
        limiter.run_next(day, 60_000, DEFAULT_LIMIT_MILLIS + 60_001),
        Some(Notice::ExtendedLimitReached)
    );
    assert_eq!(limiter.run_next(day, u64::MAX, u64::MAX), None);
    assert_eq!(limiter.last_overage_day, None);
}

#[test]
fn notice_messages() {
    assert_eq!(Notice::DefaultLimitReached.message(), "Reached default active time limit for today");
    assert_eq!(Notice::ExtendedLimitReached.message(), "Reached extended active time limit for today");
}

#[test]
fn duration_parsing() {
    assert_eq!(parse_duration(b"90m"), Ok(5400));
    assert_eq!(parse_duration(b"2h"), Ok(7200));
    assert_eq!(parse_duration(b"30s"), Ok(30));
    assert_eq!(parse_duration(b"45"), Ok(45));
    assert_eq!(parse_duration(b""), Err(DurationError::Empty));
    assert_eq!(parse_duration(b"5x"), Err(DurationError::UnknownUnit));
    assert_eq!(parse_duration(b"h"), Err(DurationError::BadNumber));
    assert_eq!(parse_duration(b"1.5h"), Err(DurationError::BadNumber));
    assert_eq!(parse_duration(b"99999999999999999999"), Err(DurationError::BadNumber));
    assert_eq!(parse_duration(b"18446744073709551h"), Err(DurationError::TooLarge));
    assert_eq!(parse_duration(b"18446744073709551"), Ok(18446744073709551));
}

#[test]
fn duration_formatting() {
    assert_eq!(seconds_to_string(5400), "1h30m0s");
    assert_eq!(seconds_to_string(-30), "-30s");
    assert_eq!(seconds_to_string(59), "59s");
    assert_eq!(seconds_to_string(0), "0s");
    assert_eq!(seconds_to_string(3605), "1h5s");
    assert_eq!(seconds_to_string(i64::MIN), "-2562047788015215h30m8s");
}

#[test]
fn decimal_numbers() {
    assert_eq!(parse_millis(b"12345.6"), Some(12_345_600));
    assert_eq!(parse_millis(b"1.2345"), Some(1_234));
    assert_eq!(parse_millis(b"7"), Some(7_000));
    assert_eq!(parse_millis(b"."), None);
    assert_eq!(parse_millis(b"1."), None);
    assert_eq!(parse_millis(b"-1"), None);
    assert_eq!(parse_unsigned(b"18446744073709551615"), Some(u64::MAX));
    assert_eq!(parse_unsigned(b"18446744073709551616"), None);
}

#[test]
fn query_response_parsing() {
    assert_eq!(parse_query_response(200, b"[12345.6]"), Ok(12_345_600));
    assert_eq!(parse_query_response(200, b"[0]\n"), Ok(0));
    assert_eq!(parse_query_response(500, b"[12345.6]"), Err(QueryError::BadStatus(500)));
    assert_eq!(parse_query_response(200, b"[abc]"), Err(QueryError::BadBody));
    assert_eq!(parse_query_response(200, b""), Err(QueryError::BadBody));
    assert_eq!(parse_query_response(200, b"12345.6"), Err(QueryError::BadBody));
}

#[test]
fn query_body_text() {
    let body = query_body_for("A", "B");
    assert_eq!(body, format!("{}A/B{}", QUERY_PREFIX, QUERY_SUFFIX));
    let full = query_body(14400, 100800).unwrap();
    assert_eq!(
        full,
        format!("{}1970-01-01T04:00:00+00:00/1970-01-02T04:00:00+00:00{}", QUERY_PREFIX, QUERY_SUFFIX)
    );
    assert!(QUERY_PREFIX.contains("not-afk"));
}

#[test]
fn status_report_lines() {
    let lines = status_lines(3_600_000, 0);
    assert_eq!(lines[0], "Active time: 1h0s");
    assert_eq!(lines[1], "Default limit: 7h30m0s (13%, 6h30m0s left)");
    assert_eq!(lines[2], "Extended limit: 7h30m0s (13%, 6h30m0s left)");
    let over = status_lines(28_800_999, 1_800_000);
    assert_eq!(over[1], "Default limit: 7h30m0s (106%, -30m0s left)");
    assert_eq!(over[2], "Extended limit: 8h0s (100%, 0s left)");
}

#[test]
fn poll_sleep() {
    assert_eq!(sleep_millis(1500), 58_500);
    assert_eq!(sleep_millis(60_000), 0);
    assert_eq!(sleep_millis(70_000), 0);
}

#[test]
fn local_day_range_and_today() {
    let (start, end) = range(LogicalDay { epoch_day: DAY_2024_03_05 }).unwrap();
    assert_eq!(end - start, 86400);
    assert!((start - (DAY_2024_03_05 * 86400 + 14400)).abs() < 86400);
    let day = today().unwrap();
    assert!(day.epoch_day > DAY_2024_03_05);
}

#[test]
fn query_response_exponent_forms() {
    assert_eq!(parse_query_response(200, b"[1e2]"), Ok(100_000));
    assert_eq!(parse_query_response(200, b"[1.5E-1]"), Ok(150));
    assert_eq!(parse_query_response(200, b"[2e+1]"), Ok(20_000));
    assert_eq!(parse_query_response(200, b"[1e-5]"), Ok(0));
    assert_eq!(parse_query_response(200, b"[0e400]"), Ok(0));
    assert_eq!(parse_query_response(200, b"[1e400]"), Err(QueryError::BadBody));
    assert_eq!(parse_query_response(200, b"[1e-99999999999999999999999]"), Ok(0));
    assert_eq!(parse_query_response(200, b"[1e]"), Err(QueryError::BadBody));
    assert_eq!(parse_query_response(200, b"[1.]"), Err(QueryError::BadBody));
    assert_eq!(parse_query_response(200, b"["), Err(QueryError::BadBody));
    assert_eq!(parse_query_response(200, b"[]"), Err(QueryError::BadBody));
}

#[test]
fn json_numbers() {
    assert_eq!(parse_json_millis(b"12345.6"), Some(12_345_600));
    assert_eq!(parse_json_millis(b"1.2345e2"), Some(123_450));
    assert_eq!(parse_json_millis(b"18446744073709551.615"), Some(u64::MAX));
    assert_eq!(parse_json_millis(b"18446744073709551.616"), None);
    assert_eq!(parse_json_millis(b"-1"), None);
    assert_eq!(parse_json_millis(b"1e2x"), None);
}

#[test]
fn day_conversions_succeed_in_range() {
    let day = LogicalDay { epoch_day: -90_000_000 };
    assert!(civil_date(day).is_some());
    assert!(store_record(LogicalDay { epoch_day: 90_000_000 }, 1000).is_ok());
    assert!(query_body(-7_000_000_000_000, 7_000_000_000_000).is_ok());
}
