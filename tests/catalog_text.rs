use annual_events::date::{Month, Weekday};
use annual_events::event::{Event, WeekInMonth};
use annual_events::parse::{parse_catalog, parse_datespec_bytes, parse_day, split_bytes, trim_bytes, ParseErrorKind};

fn summaries(text: &str) -> Vec<String> {
    let c = parse_catalog(text.as_bytes()).unwrap();
    c.entries.iter().map(|e| String::from_utf8(e.summary.clone()).unwrap()).collect()
}

#[test]
fn parses_both_shapes_in_summary_order() {
    let text = "Thanksgiving: FixedDayOfMonth,November,Thursday,Fourth\n\n  Independence Day: FixedDate,July,04  \r\n";
    let c = parse_catalog(text.as_bytes()).unwrap();
    assert_eq!(c.len(), 2);
    assert_eq!(c.entries[0].summary, b"Independence Day".to_vec());
    assert_eq!(c.entries[0].event, Event::FixedDate(Month::July, 4));
    assert_eq!(c.entries[1].summary, b"Thanksgiving".to_vec());
    assert_eq!(
        c.entries[1].event,
        Event::FixedDayOfMonth(Month::November, Weekday::Thu, WeekInMonth::Fourth)
    );
}

#[test]
fn later_line_replaces_same_summary() {
    let c = parse_catalog(b"A: FixedDate,May,1\nA: FixedDate,May,2\nB: FixedDate,May,3").unwrap();
    assert_eq!(c.len(), 2);
    assert_eq!(c.entries[0].event, Event::FixedDate(Month::May, 2));
}

#[test]
fn summary_may_hold_the_delimiter() {
    assert_eq!(summaries("Note: reminder: FixedDate,June,1"), vec!["Note: reminder".to_string()]);
}

#[test]
fn empty_text_gives_empty_catalog() {
    assert_eq!(parse_catalog(b"").unwrap().len(), 0);
    assert_eq!(parse_catalog(b"\n  \n").unwrap().len(), 0);
}

#[test]
fn errors_name_line_and_content() {
    let err = parse_catalog(b"A: FixedDate,May,1\n\n  Broken line  \n").unwrap_err();
    assert_eq!(err.line, 2);
    assert_eq!(err.content, b"Broken line".to_vec());
    assert_eq!(err.kind, ParseErrorKind::MissingDelimiter);
}

#[test]
fn each_error_kind() {
    let kind = |s: &str| parse_catalog(s.as_bytes()).unwrap_err().kind;
    assert_eq!(kind(": FixedDate,May,1"), ParseErrorKind::EmptySummary);
    assert_eq!(kind("A: Floating,May,1"), ParseErrorKind::UnknownShape);
    assert_eq!(kind("A: FixedDate,May"), ParseErrorKind::UnknownShape);
    assert_eq!(kind("A: FixedDate,Mai,1"), ParseErrorKind::UnknownMonth);
    assert_eq!(kind("A: FixedDate,May,x1"), ParseErrorKind::InvalidDay);
    assert_eq!(kind("A: FixedDate,May,0"), ParseErrorKind::InvalidDay);
    assert_eq!(kind("A: FixedDate,May,32"), ParseErrorKind::DayOutOfRange);
    assert_eq!(kind("A: FixedDate,February,29"), ParseErrorKind::DayOutOfRange);
    assert_eq!(kind("A: FixedDate,April,31"), ParseErrorKind::DayOutOfRange);
    assert_eq!(kind("A: FixedDayOfMonth,May,Mo,First"), ParseErrorKind::UnknownWeekday);
    assert_eq!(kind("A: FixedDayOfMonth,May,Mon,Fifth"), ParseErrorKind::UnknownWeekInMonth);
}

#[test]
fn datespec_forms() {
    assert_eq!(parse_datespec_bytes(b"FixedDate,December,31"), Ok(Event::FixedDate(Month::December, 31)));
    assert_eq!(
        parse_datespec_bytes(b"FixedDayOfMonth,May,Mon,Last"),
        Ok(Event::FixedDayOfMonth(Month::May, Weekday::Mon, WeekInMonth::Last))
    );
}

#[test]
fn day_numbers() {
    assert_eq!(parse_day(b"007"), Some(7));
    assert_eq!(parse_day(b"31"), Some(31));
    assert_eq!(parse_day(b"4294967295"), Some(4294967295));
    assert_eq!(parse_day(b"4294967296"), None);
    assert_eq!(parse_day(b"000"), None);
    assert_eq!(parse_day(b""), None);
    assert_eq!(parse_day(b"1a"), None);
}

#[test]
fn splitting_and_trimming() {
    assert_eq!(split_bytes(b"a,,b", b','), vec![b"a".to_vec(), vec![], b"b".to_vec()]);
    assert_eq!(split_bytes(b"", b','), vec![Vec::<u8>::new()]);
    assert_eq!(trim_bytes(b" \t x y \r\n"), b"x y".to_vec());
    assert_eq!(trim_bytes(b"   "), Vec::<u8>::new());
}
