use chrono::{DateTime, Local, NaiveDate, NaiveDateTime, TimeZone};
use notes::dates::{
    has_char, parse_i32, parse_manual_date, parse_simple_date, parse_u32, read_date,
    split_at_char, DateReading,
};
use notes::timestamp::{valid_instant, Timestamp, MAX_SECS, MIN_SECS};

fn chars(s: &str) -> Vec<char> {
    s.chars().collect()
}

fn midnight(y: i32, m: u32, d: u32) -> i64 {
    NaiveDate::from_ymd_opt(y, m, d).unwrap().and_hms_opt(0, 0, 0).unwrap().and_utc().timestamp()
}

const NUMBERS: [&str; 30] = [
    "",
    "0",
    "7",
    "007",
    "+5",
    "-5",
    "+",
    "-",
    "+-5",
    "--5",
    "5+",
    " 5",
    "5 ",
    "12a",
    "a12",
    "2147483647",
    "2147483648",
    "-2147483648",
    "-2147483649",
    "4294967295",
    "4294967296",
    "+4294967295",
    "99999999999999999999999999",
    "-99999999999999999999999999",
    "0000000000000000000000000000042",
    "-0",
    "+0",
    "1_000",
    "１２",
    "0x10",
];

#[test]
fn parse_u32_agrees_with_str_parse() {
    for s in NUMBERS {
        assert_eq!(parse_u32(&chars(s)), s.parse::<u32>().ok(), "{:?}", s);
    }
}

#[test]
fn parse_i32_agrees_with_str_parse() {
    for s in NUMBERS {
        assert_eq!(parse_i32(&chars(s)), s.parse::<i32>().ok(), "{:?}", s);
    }
}

#[test]
fn parse_numbers_exact_values() {
    assert_eq!(parse_u32(&chars("2024")), Some(2024));
    assert_eq!(parse_u32(&chars("4294967295")), Some(u32::MAX));
    assert_eq!(parse_u32(&chars("4294967296")), None);
    assert_eq!(parse_u32(&chars("-1")), None);
    assert_eq!(parse_i32(&chars("-2147483648")), Some(i32::MIN));
    assert_eq!(parse_i32(&chars("2147483647")), Some(i32::MAX));
    assert_eq!(parse_i32(&chars("2147483648")), None);
}

#[test]
fn split_at_char_agrees_with_str_split() {
    for s in ["", "a", "/", "a/b", "a//b", "/a/", "2024/3/5", "2024-3-5", "--", "a/b/c/d"] {
        for sep in ['/', '-'] {
            let expected: Vec<Vec<char>> = s.split(sep).map(|p| p.chars().collect()).collect();
            assert_eq!(split_at_char(&chars(s), sep), expected, "{:?} at {:?}", s, sep);
        }
    }
}

#[test]
fn has_char_finds_the_character() {
    assert!(has_char(&chars("2024/3/5"), '/'));
    assert!(!has_char(&chars("2024/3/5"), '-'));
    assert!(!has_char(&chars(""), '-'));
    assert!(has_char(&chars("-"), '-'));
}

#[test]
fn manual_date_reads_year_month_day() {
    assert_eq!(parse_manual_date(&chars("2025/3/21")), Some(midnight(2025, 3, 21)));
    assert_eq!(parse_manual_date(&chars("2025-7-31")), Some(midnight(2025, 7, 31)));
    assert_eq!(parse_manual_date(&chars("12345/1/2")), Some(midnight(12345, 1, 2)));
    assert_eq!(parse_manual_date(&chars("+2025/+3/+21")), Some(midnight(2025, 3, 21)));
    assert_eq!(parse_manual_date(&chars("1970/1/1")), Some(0));
    assert_eq!(parse_manual_date(&chars("1970/1/2")), Some(86_400));
}

#[test]
fn manual_date_refuses_what_is_no_date() {
    assert_eq!(parse_manual_date(&chars("2025/2/30")), None);
    assert_eq!(parse_manual_date(&chars("2025/13/1")), None);
    assert_eq!(parse_manual_date(&chars("2025/3")), None);
    assert_eq!(parse_manual_date(&chars("2025/3/21/4")), None);
    assert_eq!(parse_manual_date(&chars("20250321")), None);
    assert_eq!(parse_manual_date(&chars("2025/3-21")), None);
    assert_eq!(parse_manual_date(&chars("2025-3/21")), None);
    assert_eq!(parse_manual_date(&chars("-2025-3-21")), None);
    assert_eq!(parse_manual_date(&chars("2025/x/21")), None);
    assert_eq!(parse_manual_date(&chars("400000/1/1")), None);
    assert_eq!(parse_manual_date(&chars("")), None);
}

#[test]
fn simple_date_reads_bare_dates() {
    assert_eq!(parse_simple_date("2024/3/5"), Some(midnight(2024, 3, 5)));
    assert_eq!(parse_simple_date("2024/03/05"), Some(midnight(2024, 3, 5)));
    assert_eq!(parse_simple_date("2024-3-5"), Some(midnight(2024, 3, 5)));
    assert_eq!(parse_simple_date("2024-03-05"), Some(midnight(2024, 3, 5)));
    assert_eq!(parse_simple_date("12345/1/2"), Some(midnight(12345, 1, 2)));
    assert_eq!(parse_simple_date("2024-03-05 10:30:00"), None);
    assert_eq!(parse_simple_date("yesterday"), None);
    assert_eq!(parse_simple_date(""), None);
}

#[test]
fn read_date_reads_rfc3339() {
    assert_eq!(
        read_date("2024-01-15T10:30:00+02:00"),
        DateReading::Instant { secs: 1_705_307_400, nanos: 0 }
    );
    assert_eq!(
        read_date("2024-01-15T08:30:00Z"),
        DateReading::Instant { secs: 1_705_307_400, nanos: 0 }
    );
    assert_eq!(
        read_date("2024-01-15T10:30:00.123456789-05:00"),
        DateReading::Instant { secs: 1_705_332_600, nanos: 123_456_789 }
    );
    assert_eq!(
        read_date("1969-12-31T23:59:59.5Z"),
        DateReading::Instant { secs: -1, nanos: 500_000_000 }
    );
}

#[test]
fn read_date_reads_a_leap_second() {
    assert_eq!(
        read_date("2016-12-31T23:59:60Z"),
        DateReading::Instant { secs: 1_483_228_799, nanos: 1_000_000_000 }
    );
}

#[test]
fn read_date_reads_a_date_and_time_with_offset() {
    assert_eq!(
        read_date("2024-01-15 10:30:00 +0200"),
        DateReading::Instant { secs: 1_705_307_400, nanos: 0 }
    );
    assert_eq!(
        read_date("2024-01-15 10:30:00 -05:00"),
        DateReading::Instant { secs: 1_705_332_600, nanos: 0 }
    );
}

#[test]
fn read_date_reads_a_date_and_time_of_the_wall_clock() {
    assert_eq!(
        read_date("2024-01-15 10:30:00"),
        DateReading::Wall { secs: 1_705_314_600, nanos: 0 }
    );
}

#[test]
fn read_date_reads_a_bare_date_as_midnight() {
    assert_eq!(read_date("2024/3/5"), DateReading::Wall { secs: midnight(2024, 3, 5), nanos: 0 });
    assert_eq!(read_date("2024-03-05"), DateReading::Wall { secs: 1_709_596_800, nanos: 0 });
    assert_eq!(read_date("12345/1/2"), DateReading::Wall { secs: midnight(12345, 1, 2), nanos: 0 });
}

#[test]
fn read_date_gives_up_on_what_is_no_date() {
    assert_eq!(read_date("garbage"), DateReading::Unreadable);
    assert_eq!(read_date(""), DateReading::Unreadable);
    assert_eq!(read_date("2024-02-30"), DateReading::Unreadable);
    assert_eq!(read_date("10:30:00"), DateReading::Unreadable);
}

#[test]
fn place_shows_an_instant_in_the_local_zone() {
    let reading = DateReading::Instant { secs: 1_705_307_400, nanos: 7 };
    assert_eq!(
        reading.place(Some(3_600)),
        Some(Timestamp { secs: 1_705_307_400, nanos: 7, offset: 3_600 })
    );
    assert_eq!(reading.place(None), None);
    assert_eq!(reading.place(Some(86_400)), None);
    assert_eq!(reading.place(Some(-86_400)), None);
    assert_eq!(
        reading.place(Some(-86_399)),
        Some(Timestamp { secs: 1_705_307_400, nanos: 7, offset: -86_399 })
    );
}

#[test]
fn place_finds_the_instant_of_a_wall_clock_time() {
    let reading = DateReading::Wall { secs: 1_705_314_600, nanos: 0 };
    assert_eq!(
        reading.place(Some(7_200)),
        Some(Timestamp { secs: 1_705_307_400, nanos: 0, offset: 7_200 })
    );
    assert_eq!(
        reading.place(Some(-18_000)),
        Some(Timestamp { secs: 1_705_332_600, nanos: 0, offset: -18_000 })
    );
    assert_eq!(reading.place(None), None);
    assert_eq!(DateReading::Wall { secs: MIN_SECS, nanos: 0 }.place(Some(1)), None);
    assert_eq!(DateReading::Wall { secs: MAX_SECS, nanos: 0 }.place(Some(-1)), None);
    assert_eq!(DateReading::Unreadable.place(Some(0)), None);
    assert_eq!(DateReading::Wall { secs: i64::MIN, nanos: 0 }.place(Some(1)), None);
    assert_eq!(DateReading::Instant { secs: i64::MAX, nanos: 0 }.place(Some(0)), None);
    assert_eq!(DateReading::Instant { secs: 0, nanos: 2_000_000_000 }.place(Some(0)), None);
}

#[test]
fn resolve_takes_the_current_time_for_what_chrono_lacks() {
    let before = Local::now().timestamp();
    let t = DateReading::Instant { secs: i64::MAX, nanos: 0 }.resolve();
    let u = DateReading::Wall { secs: i64::MIN, nanos: 0 }.resolve();
    let after = Local::now().timestamp();
    assert!(before <= t.secs && t.secs <= after);
    assert!(before <= u.secs && u.secs <= after);
}

#[test]
fn timestamps_are_ordered_as_chrono_orders_them() {
    let parts: [(i64, u32); 7] = [
        (0, 0),
        (0, 1),
        (-1, 999_999_999),
        (1_705_307_400, 5),
        (1_705_307_400, 6),
        (1_483_228_799, 1_000_000_000),
        (1_483_228_800, 0),
    ];
    for (s1, n1) in parts {
        for (s2, n2) in parts {
            let a = Timestamp { secs: s1, nanos: n1, offset: 3_600 };
            let b = Timestamp { secs: s2, nanos: n2, offset: -7_200 };
            let x = DateTime::from_timestamp(s1, n1).unwrap();
            let y = DateTime::from_timestamp(s2, n2).unwrap();
            assert_eq!(a.is_not_before(&b), x >= y);
        }
    }
}

#[test]
fn resolve_keeps_an_instant() {
    let t = DateReading::Instant { secs: 1_705_307_400, nanos: 42 }.resolve();
    let local = Local.timestamp_opt(1_705_307_400, 42).unwrap();
    assert_eq!(t.secs, 1_705_307_400);
    assert_eq!(t.nanos, 42);
    assert_eq!(t.offset, local.offset().local_minus_utc());
}

#[test]
fn resolve_reads_the_wall_clock_of_the_local_zone() {
    let wall = NaiveDate::from_ymd_opt(2024, 1, 15).unwrap().and_hms_opt(10, 30, 0).unwrap();
    let t = DateReading::Wall { secs: wall.and_utc().timestamp(), nanos: 0 }.resolve();
    if let Some(local) = wall.and_local_timezone(Local).single() {
        assert_eq!(t.secs, local.timestamp());
        assert_eq!(t.nanos, 0);
        assert_eq!(t.offset, local.offset().local_minus_utc());
    }
}

#[test]
fn resolve_falls_back_to_the_current_time() {
    let before = Local::now().timestamp();
    let t = DateReading::Unreadable.resolve();
    let after = Local::now().timestamp();
    assert!(before <= t.secs && t.secs <= after);
    assert!(t.nanos < 1_000_000_000);
}

#[test]
fn the_range_is_that_of_chrono() {
    assert_eq!(NaiveDateTime::MIN.and_utc().timestamp(), MIN_SECS);
    assert_eq!(NaiveDateTime::MAX.and_utc().timestamp(), MAX_SECS);
    assert!(DateTime::from_timestamp(MIN_SECS, 0).is_some());
    assert!(DateTime::from_timestamp(MIN_SECS - 1, 0).is_none());
    assert!(DateTime::from_timestamp(MAX_SECS, 999_999_999).is_some());
    assert!(DateTime::from_timestamp(MAX_SECS + 1, 0).is_none());
}

#[test]
fn valid_instant_tests_the_range() {
    assert!(valid_instant(0, 0));
    assert!(valid_instant(MIN_SECS, 0));
    assert!(!valid_instant(MIN_SECS - 1, 0));
    assert!(valid_instant(MAX_SECS, 999_999_999));
    assert!(!valid_instant(MAX_SECS, 1_000_000_000));
    assert!(valid_instant(MAX_SECS - 1, 1_999_999_999));
    assert!(!valid_instant(0, 2_000_000_000));
    assert!(!valid_instant(MAX_SECS + 1, 0));
}

#[test]
fn timestamp_new_checks_its_parts() {
    assert_eq!(Timestamp::new(5, 6, 7), Some(Timestamp { secs: 5, nanos: 6, offset: 7 }));
    assert_eq!(Timestamp::new(5, 2_000_000_000, 7), None);
    assert_eq!(Timestamp::new(5, 6, 86_400), None);
    assert_eq!(Timestamp::new(5, 6, -86_400), None);
    assert_eq!(Timestamp::new(MAX_SECS + 1, 0, 0), None);
}

#[test]
fn timestamps_are_ordered_by_their_instant() {
    let a = Timestamp { secs: 10, nanos: 5, offset: 0 };
    let b = Timestamp { secs: 10, nanos: 6, offset: 3_600 };
    let c = Timestamp { secs: 11, nanos: 0, offset: -3_600 };
    assert!(a.is_not_before(&a));
    assert!(b.is_not_before(&a));
    assert!(!a.is_not_before(&b));
    assert!(c.is_not_before(&b));
    assert!(!b.is_not_before(&c));
}

#[test]
fn nanoseconds_since_the_epoch() {
    let t = Timestamp { secs: 1, nanos: 5, offset: 0 };
    assert_eq!(t.timestamp_nanos_opt(), Some(1_000_000_005));
    let t = Timestamp { secs: -1, nanos: 999_999_999, offset: 0 };
    assert_eq!(t.timestamp_nanos_opt(), Some(-1));
    let t = Timestamp { secs: 9_223_372_036, nanos: 854_775_807, offset: 0 };
    assert_eq!(t.timestamp_nanos_opt(), Some(i64::MAX));
    let t = Timestamp { secs: 9_223_372_036, nanos: 854_775_808, offset: 0 };
    assert_eq!(t.timestamp_nanos_opt(), None);
    let t = Timestamp { secs: -9_223_372_037, nanos: 145_224_192, offset: 0 };
    assert_eq!(t.timestamp_nanos_opt(), Some(i64::MIN));
    let t = Timestamp { secs: -9_223_372_037, nanos: 145_224_191, offset: 0 };
    assert_eq!(t.timestamp_nanos_opt(), None);
    let chrono_value = DateTime::from_timestamp(1_705_307_400, 123).unwrap();
    let t = Timestamp { secs: 1_705_307_400, nanos: 123, offset: 0 };
    assert_eq!(t.timestamp_nanos_opt(), chrono_value.timestamp_nanos_opt());
}

#[test]
fn a_date_and_time_without_zone_is_local_time_in_any_zone() {
    for offset in [0, 3_600, 7_200, -18_000, 19_800, -86_399, 86_399, 3_208] {
        let t = read_date("2024-01-15 10:30:00").place(Some(offset)).unwrap();
        assert_eq!(t, Timestamp { secs: 1_705_314_600 - offset as i64, nanos: 0, offset });
        let shown = DateTime::from_timestamp(t.secs + offset as i64, 0).unwrap();
        assert_eq!(shown.format("%Y-%m-%d %H:%M:%S").to_string(), "2024-01-15 10:30:00");
    }
}

#[test]
fn a_bare_date_is_local_midnight_in_any_zone() {
    for offset in [0, 3_600, -18_000, 34_200] {
        let t = read_date("2024/3/5").place(Some(offset)).unwrap();
        assert_eq!(t, Timestamp { secs: 1_709_596_800 - offset as i64, nanos: 0, offset });
        let shown = DateTime::from_timestamp(t.secs + offset as i64, 0).unwrap();
        assert_eq!(shown.format("%Y-%m-%d %H:%M:%S").to_string(), "2024-03-05 00:00:00");
    }
}
