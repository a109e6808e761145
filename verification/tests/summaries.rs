use session_log::daily_summary;
use session_log::format_record;
use session_log::monthly_summary;
use session_log::weekday_name;
use session_log::weekly_summary;
use session_log::Date;
use session_log::SummaryError;

fn date(year: u16, month: u8, day: u8) -> Date {
    Date { year, month, day }
}

#[test]
fn append_then_daily_roundtrip() {
    let today = date(2024, 1, 15);
    let line = format_record(&today, "U", 42);
    assert_eq!(line, "2024-01-15,U,42\n");
    let daily = daily_summary(&line, &today);
    assert_eq!(daily.total_of("U"), 42);
    assert!(daily.contains("U"));
    assert_eq!(daily.len(), 1);
}

#[test]
fn repeated_appends_sum_in_daily() {
    let today = date(2024, 1, 15);
    let mut content = String::new();
    for duration in [1u64, 2, 3, 10] {
        content.push_str(&format_record(&today, "E", duration));
    }
    let daily = daily_summary(&content, &today);
    assert_eq!(daily.total_of("E"), 16);
    assert_eq!(daily.len(), 1);
}

#[test]
fn daily_counts_only_matching_date_text() {
    let today = date(2024, 1, 15);
    let content = "2024-01-15,U,5\n2024-01-14,U,7\n2024-01-15,E,2\n";
    let daily = daily_summary(content, &today);
    assert_eq!(daily.total_of("U"), 5);
    assert_eq!(daily.total_of("E"), 2);
    assert!(!daily.contains("S"));
    assert_eq!(daily.len(), 2);
}

#[test]
fn malformed_lines_are_skipped_everywhere() {
    let today = date(2024, 1, 15);
    let content = "2024-01-01,X\n2024-01-15,U,5\n2024-01-01,a,b,c\nnonsense\n";
    let daily = daily_summary(content, &today);
    assert_eq!(daily.total_of("U"), 5);
    assert!(!daily.contains("X"));
    assert_eq!(daily.len(), 1);
    let weekly = weekly_summary(content).unwrap();
    assert_eq!(weekly.day(1).total_of("X"), 0);
    let monthly = monthly_summary(content, &today).unwrap();
    assert!(!monthly.contains("X"));
    assert_eq!(monthly.total_of("U"), 5);
}

#[test]
fn unparsable_duration_counts_as_zero_not_error() {
    let today = date(2024, 1, 15);
    let content = "2024-01-15,X,abc\n2024-01-15,X,4\n2024-01-15,Y,-3\n";
    let daily = daily_summary(content, &today);
    assert_eq!(daily.total_of("X"), 4);
    assert!(daily.contains("Y"));
    assert_eq!(daily.total_of("Y"), 0);
    let monthly = monthly_summary(content, &today).unwrap();
    assert_eq!(monthly.total_of("X"), 4);
    assert_eq!(monthly.total_of("Y"), 0);
    assert!(weekly_summary(content).is_ok());
}

#[test]
fn duration_parsing_edges() {
    let today = date(2024, 1, 15);
    let content = "2024-01-15,A,+5\n2024-01-15,B,18446744073709551615\n2024-01-15,C,99999999999999999999\n2024-01-15,D,\n";
    let daily = daily_summary(content, &today);
    assert_eq!(daily.total_of("A"), 5);
    assert_eq!(daily.total_of("B"), u64::MAX);
    assert_eq!(daily.total_of("C"), 0);
    assert_eq!(daily.total_of("D"), 0);
    assert!(daily.contains("C"));
    assert!(daily.contains("D"));
}

#[test]
fn weekly_structure_is_seeded_even_for_empty_content() {
    let weekly = weekly_summary("").unwrap();
    let names = [
        "Monday", "Tuesday", "Wednesday", "Thursday", "Friday", "Saturday", "Sunday",
    ];
    for wd in 1..=7u8 {
        assert_eq!(weekday_name(wd), names[(wd - 1) as usize]);
        let day = weekly.day(wd);
        assert_eq!(day.len(), 4);
        for code in ["U", "E", "S", "F"] {
            assert!(day.contains(code));
            assert_eq!(day.total_of(code), 0);
        }
    }
}

#[test]
fn weekly_accumulates_by_weekday_over_all_history() {
    // 2024-01-01 is a Monday and 2024-01-07 a Sunday; 2023-12-25 is also a
    // Monday, so it lands in the same bucket: the weekly view is cumulative
    // over the whole history, not a rolling week.
    let content = "2024-01-01,U,5\n2024-01-07,E,2\n2023-12-25,U,10\n2024-01-01,Z,1\n";
    let weekly = weekly_summary(content).unwrap();
    assert_eq!(weekly.day(1).total_of("U"), 15);
    assert_eq!(weekly.day(7).total_of("E"), 2);
    assert_eq!(weekly.day(2).total_of("U"), 0);
    assert_eq!(weekly.day(1).total_of("Z"), 1);
    assert!(weekly.day(1).contains("Z"));
    assert!(!weekly.day(2).contains("Z"));
}

#[test]
fn invalid_calendar_date_fails_strict_queries() {
    let today = date(2024, 1, 15);
    let content = "2024-01-01,U,5\n2024-13-40,U,5\n";
    assert_eq!(weekly_summary(content).unwrap_err(), SummaryError::InvalidDate);
    assert_eq!(
        monthly_summary(content, &today).unwrap_err(),
        SummaryError::InvalidDate
    );
    // The daily query never parses dates, so the same content passes it.
    let daily = daily_summary(content, &today);
    assert_eq!(daily.len(), 0);
}

#[test]
fn nonexistent_calendar_days_are_invalid() {
    let today = date(2024, 1, 15);
    for line in [
        "2023-02-29,U,1\n",
        "2024-04-31,U,1\n",
        "2024-00-10,U,1\n",
        "2024-1-5,U,1\n",
        "24-01-05,U,1\n",
    ] {
        assert!(weekly_summary(line).is_err(), "{line:?}");
        assert!(monthly_summary(line, &today).is_err(), "{line:?}");
    }
    // A leap day of a leap year is a real date.
    assert!(weekly_summary("2024-02-29,U,1\n").is_ok());
    assert!(weekly_summary("2000-02-29,U,1\n").is_ok());
    assert!(weekly_summary("1900-02-29,U,1\n").is_err());
}

#[test]
fn monthly_requires_year_and_month_to_match() {
    let today = date(2024, 5, 10);
    let content = "2024-05-01,U,3\n2023-05-01,U,7\n2024-04-30,U,1\n2024-05-31,U,4\n";
    let monthly = monthly_summary(content, &today).unwrap();
    assert_eq!(monthly.total_of("U"), 7);
    assert_eq!(monthly.len(), 1);
}

#[test]
fn strict_queries_trim_lines_but_daily_does_not() {
    let today = date(2024, 1, 15);
    let spaced = "  2024-01-15,U,5  \n";
    let weekly = weekly_summary(spaced).unwrap();
    assert_eq!(weekly.day(1).total_of("U"), 5);
    let monthly = monthly_summary(spaced, &today).unwrap();
    assert_eq!(monthly.total_of("U"), 5);
    // The daily reader splits the raw line: the leading spaces stay in the
    // date field, which then does not equal today's text.
    let daily = daily_summary(spaced, &today);
    assert!(!daily.contains("U"));
}

#[test]
fn windows_line_endings_are_tolerated() {
    let today = date(2024, 1, 15);
    let content = "2024-01-15,U,5\r\n2024-01-15,E,2\r\n";
    let daily = daily_summary(content, &today);
    assert_eq!(daily.total_of("U"), 5);
    assert_eq!(daily.total_of("E"), 2);
    let weekly = weekly_summary(content).unwrap();
    assert_eq!(weekly.day(1).total_of("U"), 5);
}

#[test]
fn torn_final_line_keeps_its_carriage_return() {
    // A carriage return is stripped only from a line a newline ended: on a
    // log whose final line was cut short after the `\r`, the daily reader
    // sees the duration as `5\r`, which does not parse and counts zero.
    let today = date(2024, 1, 15);
    let daily = daily_summary("2024-01-15,U,5\r", &today);
    assert!(daily.contains("U"));
    assert_eq!(daily.total_of("U"), 0);
    // The strict readers trim the line, so the same log counts 5 there.
    let weekly = weekly_summary("2024-01-15,U,5\r").unwrap();
    assert_eq!(weekly.day(1).total_of("U"), 5);
}

#[test]
fn activities_accumulate_independently() {
    let today = date(2024, 1, 15);
    let mut content = String::new();
    content.push_str(&format_record(&today, "U", 1));
    content.push_str(&format_record(&today, "E", 2));
    content.push_str(&format_record(&today, "U", 3));
    content.push_str(&format_record(&today, "work", 9));
    let daily = daily_summary(&content, &today);
    assert_eq!(daily.total_of("U"), 4);
    assert_eq!(daily.total_of("E"), 2);
    assert_eq!(daily.total_of("work"), 9);
    assert_eq!(daily.len(), 3);
}
