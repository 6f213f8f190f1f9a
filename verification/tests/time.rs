use velnor_actions_generator::time::{days_in_month, is_leap_year, looks_rfc3339_utc, utc_seconds};

#[test]
fn counts_seconds_since_1970() {
    assert_eq!(utc_seconds("1970-01-01T00:00:00Z"), Some(0));
    assert_eq!(utc_seconds("1970-01-02T00:00:01Z"), Some(86_401));
    assert_eq!(utc_seconds("2000-03-01T00:00:00Z"), Some(951_868_800));
    assert_eq!(utc_seconds("2024-02-29T12:34:56Z"), Some(1_709_210_096));
    assert_eq!(utc_seconds("9999-12-31T23:59:59Z"), Some(253_402_300_799));
}

#[test]
fn does_not_hold_the_time_of_day_to_the_clock() {
    assert_eq!(utc_seconds("2024-01-01T99:99:99Z"), Some(1_704_429_639));
}

#[test]
fn refuses_dates_that_the_calendar_lacks() {
    for value in [
        "2023-02-29T00:00:00Z",
        "1900-01-01T00:00:00Z",
        "1969-12-31T23:59:59Z",
        "2024-00-01T00:00:00Z",
        "2024-13-01T00:00:00Z",
        "2024-01-00T00:00:00Z",
        "2024-04-31T00:00:00Z",
        "2024-01-32T00:00:00Z",
    ] {
        assert!(looks_rfc3339_utc(value));
        assert_eq!(utc_seconds(value), None, "{value}");
    }
    assert!(utc_seconds("2024-02-29T00:00:00Z").is_some());
}

#[test]
fn refuses_other_shapes() {
    for value in [
        "",
        "2024-01-01T00:00:00",
        "2024-01-01t00:00:00Z",
        "2024-01-01 00:00:00Z",
        "2024-01-01T00:00:00z",
        "2024/01/01T00:00:00Z",
        "2024-01-01T00:00:0aZ",
        "2024-01-01T00:00:00ZZ",
        "024-01-01T00:00:00Z",
        "2024-01-01T00:00:éZ",
        "20é-01-01T00:00:00Z",
        "+024-01-01T00:00:00Z",
        "2024-01-01T00:00:00+00:00",
    ] {
        assert!(!looks_rfc3339_utc(value), "{value}");
        assert_eq!(utc_seconds(value), None);
    }
}

#[test]
fn knows_the_gregorian_calendar() {
    for (year, leap) in [
        (2000, true), (1900, false), (2024, true), (2023, false), (2100, false), (0, true),
        (-4, true), (-1, false), (-100, false), (-400, true), (i64::MIN, true),
    ] {
        assert_eq!(is_leap_year(year), leap, "{year}");
    }
    assert_eq!(days_in_month(2024, 2), 29);
    assert_eq!(days_in_month(2023, 2), 28);
    assert_eq!(days_in_month(2023, 4), 30);
    assert_eq!(days_in_month(2023, 12), 31);
    assert_eq!(days_in_month(2023, 0), 31);
    assert_eq!(days_in_month(2023, 13), 31);
}

#[test]
fn stamps_sort_by_time() {
    let stamps = [
        "1970-01-01T00:00:00Z", "1999-12-31T23:59:59Z", "2000-01-01T00:00:00Z",
        "2024-02-28T23:59:59Z", "2024-02-29T00:00:00Z", "2024-03-01T00:00:00Z",
        "2024-03-01T01:00:00Z", "2024-03-01T01:01:00Z", "2024-03-01T01:01:01Z",
    ];
    for pair in stamps.windows(2) {
        assert!(pair[0] < pair[1]);
        assert!(utc_seconds(pair[0]).unwrap() < utc_seconds(pair[1]).unwrap());
    }
    // Off the clock the order of the texts says nothing.
    assert!("2024-01-01T99:00:00Z" < "2024-01-02T00:00:00Z");
    assert!(utc_seconds("2024-01-01T99:00:00Z") > utc_seconds("2024-01-02T00:00:00Z"));
}
