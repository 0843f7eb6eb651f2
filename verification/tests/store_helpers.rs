use price_hunter::http::{escape_filter, host_of};
use price_hunter::time::{civil_from_days, iso8601, CHRONO_END, WRAPPED_IN_RANGE};

#[test]
fn time_iso8601_formats_utc_datetime() {
    assert_eq!(iso8601(0), "1970-01-01 00:00:00.000Z");
    assert_eq!(iso8601(1_234_567_890), "2009-02-13 23:31:30.000Z");
    assert_eq!(iso8601(123456), "1970-01-02 10:17:36.000Z");
}

#[test]
fn store_iso8601_formats_utc_datetime() {
    assert_eq!(iso8601(0), "1970-01-01 00:00:00.000Z");
    assert_eq!(iso8601(1_234_567_890), "2009-02-13 23:31:30.000Z");
    assert_eq!(iso8601(123456), "1970-01-02 10:17:36.000Z");
}

#[test]
fn http_iso8601_formats_utc_datetime() {
    assert_eq!(iso8601(0), "1970-01-01 00:00:00.000Z");
    assert_eq!(iso8601(1_234_567_890), "2009-02-13 23:31:30.000Z");
    assert_eq!(iso8601(123456), "1970-01-02 10:17:36.000Z");
}

#[test]
fn http_escape_filter_handles_apostrophes_and_backslashes() {
    assert_eq!(escape_filter("plain"), "plain");
    assert_eq!(escape_filter("A Drop d'Issey"), "A Drop d\\'Issey");
    assert_eq!(escape_filter(r"a\b"), r"a\\b");
    assert_eq!(escape_filter(r"back\'slash"), r"back\\\'slash");
}

#[test]
fn store_escape_filter_handles_apostrophes_and_backslashes() {
    assert_eq!(escape_filter("plain"), "plain");
    assert_eq!(escape_filter("A Drop d'Issey"), "A Drop d\\'Issey");
    assert_eq!(escape_filter(r"a\b"), r"a\\b");
    assert_eq!(escape_filter(r"back\'slash"), r"back\\\'slash");
}

#[test]
fn http_host_of_extracts_host() {
    assert_eq!(host_of("https://www.parfumerie.com.ar/fragancias"), "www.parfumerie.com.ar");
    assert_eq!(host_of("not a url"), "");
}

#[test]
fn store_host_of_extracts_host() {
    assert_eq!(host_of("https://www.parfumerie.com.ar/fragancias"), "www.parfumerie.com.ar");
    assert_eq!(host_of("not a url"), "");
}

#[test]
fn civil_dates_cover_leap_days_and_century_rules() {
    assert_eq!(civil_from_days(0), (1970, 1, 1));
    assert_eq!(civil_from_days(11_016), (2000, 2, 29));
    assert_eq!(civil_from_days(11_017), (2000, 3, 1));
    assert_eq!(civil_from_days(47_541), (2100, 3, 1));
    assert_eq!(civil_from_days(47_540), (2100, 2, 28));
}

#[test]
fn iso8601_pads_fields() {
    assert_eq!(iso8601(86_399), "1970-01-01 23:59:59.000Z");
    assert_eq!(iso8601(3_600 * 24 * 31 + 61), "1970-02-01 00:01:01.000Z");
}

#[test]
fn iso8601_follows_chrono_beyond_four_digit_years() {
    assert_eq!(iso8601(253_402_300_800), "+10000-01-01 00:00:00.000Z");
    assert_eq!(iso8601(u64::MAX), "1969-12-31 23:59:59.000Z");
    assert_eq!(iso8601(9_000_000_000_000), "1970-01-01 00:00:00.000Z");
}

#[test]
fn iso8601_is_the_epoch_past_chronos_range() {
    assert_eq!(iso8601(CHRONO_END - 1), "+262142-12-31 23:59:59.000Z");
    assert_eq!(iso8601(CHRONO_END), "1970-01-01 00:00:00.000Z");
    assert_eq!(iso8601(1 << 63), "1970-01-01 00:00:00.000Z");
    assert_eq!(iso8601(WRAPPED_IN_RANGE - 1), "1970-01-01 00:00:00.000Z");
    assert_eq!(iso8601(WRAPPED_IN_RANGE), "-262143-01-01 00:00:00.000Z");
}

#[test]
fn civil_dates_step_to_the_next_day() {
    assert_eq!(civil_from_days(10_956), (1999, 12, 31));
    assert_eq!(civil_from_days(10_957), (2000, 1, 1));
    assert_eq!(civil_from_days(10_987), (2000, 1, 31));
    assert_eq!(civil_from_days(10_988), (2000, 2, 1));
}
