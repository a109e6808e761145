use session_log::daily_summary;
use session_log::date_from_parts;
use session_log::format_date;
use session_log::format_record;
use session_log::parse_date;
use session_log::parse_duration;
use session_log::today_date;
use session_log::weekly_summary;
use session_log::Date;

#[test]
fn parse_date_is_strict_and_round_trips() {
    let d = parse_date("2024-02-29").unwrap();
    assert_eq!((d.year, d.month, d.day), (2024, 2, 29));
    assert_eq!(format_date(&d), "2024-02-29");
    assert!(parse_date("2024-13-40").is_none());
    assert!(parse_date("2024-02-30").is_none());
    assert!(parse_date("2024-2-03").is_none());
    assert!(parse_date("2024-02-03 ").is_none());
    assert!(parse_date("0001-01-01").is_some());
    assert!(parse_date("").is_none());
}

#[test]
fn weekday_numbering_is_monday_first() {
    // Known anchors: 2024-01-01 was a Monday, 2024-01-07 a Sunday, and
    // 2000-02-29 a Tuesday.
    let weekly = weekly_summary("2024-01-01,U,3\n2024-01-07,E,4\n2000-02-29,S,5\n").unwrap();
    assert_eq!(weekly.day(1).total_of("U"), 3);
    assert_eq!(weekly.day(7).total_of("E"), 4);
    assert_eq!(weekly.day(2).total_of("S"), 5);
}

#[test]
fn duration_text_follows_rust_integer_parsing() {
    assert_eq!(parse_duration("0"), 0);
    assert_eq!(parse_duration("007"), 7);
    assert_eq!(parse_duration("+41"), 41);
    assert_eq!(parse_duration("18446744073709551615"), u64::MAX);
    assert_eq!(parse_duration("18446744073709551616"), 0);
    assert_eq!(parse_duration("-1"), 0);
    assert_eq!(parse_duration("1 "), 0);
    assert_eq!(parse_duration("+"), 0);
    assert_eq!(parse_duration(""), 0);
}

#[test]
fn date_from_parts_accepts_exactly_real_days() {
    let d = date_from_parts(2024, 2, 29).unwrap();
    assert_eq!((d.year, d.month, d.day), (2024, 2, 29));
    assert!(date_from_parts(2023, 2, 29).is_none());
    assert!(date_from_parts(2024, 4, 31).is_none());
    assert!(date_from_parts(2024, 0, 1).is_none());
    assert!(date_from_parts(2024, 13, 1).is_none());
    assert!(date_from_parts(2024, 1, 0).is_none());
    assert!(date_from_parts(-1, 1, 1).is_none());
    assert!(date_from_parts(10000, 1, 1).is_none());
    assert!(date_from_parts(0, 1, 1).is_some());
    assert!(date_from_parts(9999, 12, 31).is_some());
}

#[test]
fn clock_date_feeds_the_daily_query() {
    let today = today_date().expect("the clock names a date within a four-digit year");
    assert!((1..=12).contains(&today.month));
    assert!((1..=31).contains(&today.day));
    let formatted = format_date(&today);
    assert_eq!(formatted.len(), 10);
    let reparsed = parse_date(&formatted).unwrap();
    assert_eq!((reparsed.year, reparsed.month, reparsed.day), (today.year, today.month, today.day));
    let line = format_record(&today, "S", 7);
    let daily = daily_summary(&line, &today);
    assert_eq!(daily.total_of("S"), 7);
}

#[test]
fn record_lines_are_plain_comma_separated_text() {
    let d = Date { year: 987, month: 12, day: 3 };
    assert_eq!(format_record(&d, "reading", 0), "0987-12-03,reading,0\n");
    assert_eq!(
        format_record(&d, "", 18446744073709551615),
        "0987-12-03,,18446744073709551615\n"
    );
}
