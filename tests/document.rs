use annual_events::calendar::{format_date, format_stamp, make_calendar, Timestamp};
use annual_events::catalog::{bytes_equal, bytes_less, Catalog};
use annual_events::date::{Date, Month, Weekday};
use annual_events::event::{Event, WeekInMonth};

fn stamp() -> Timestamp {
    Timestamp { year: 2024, month: 3, day: 5, hour: 7, minute: 8, second: 9 }
}

fn sample_catalog() -> Catalog {
    let mut c = Catalog::new();
    c.insert(b"Thanksgiving".to_vec(), Event::FixedDayOfMonth(Month::November, Weekday::Thu, WeekInMonth::Fourth));
    c.insert(b"Independence Day".to_vec(), Event::FixedDate(Month::July, 4));
    c.insert(b"Memorial Day".to_vec(), Event::FixedDayOfMonth(Month::May, Weekday::Mon, WeekInMonth::Last));
    c
}

#[test]
fn dtstart_of_independence_day() {
    let d = Event::FixedDate(Month::July, 4).to_date(2024).unwrap();
    assert_eq!(format_date(&d), b"20240704".to_vec());
    assert_eq!(format_date(&Date { year: 987, month: 1, day: 2 }), b"09870102".to_vec());
}

#[test]
fn stamp_is_basic_iso8601() {
    assert_eq!(format_stamp(&stamp()), b"20240305T070809Z".to_vec());
}

#[test]
fn catalog_is_ordered_and_unique() {
    let mut c = sample_catalog();
    let names: Vec<Vec<u8>> = c.entries.iter().map(|e| e.summary.clone()).collect();
    assert_eq!(names, vec![b"Independence Day".to_vec(), b"Memorial Day".to_vec(), b"Thanksgiving".to_vec()]);
    c.insert(b"Memorial Day".to_vec(), Event::FixedDate(Month::May, 30));
    assert_eq!(c.len(), 3);
    assert_eq!(c.entries[1].event, Event::FixedDate(Month::May, 30));
}

#[test]
fn byte_order() {
    assert!(bytes_less(b"Ab", b"Ac"));
    assert!(bytes_less(b"A", b"Ab"));
    assert!(!bytes_less(b"Ab", b"A"));
    assert!(!bytes_less(b"A", b"A"));
    assert!(bytes_less(b"Z", b"a"));
    assert!(bytes_equal(b"abc", b"abc"));
    assert!(!bytes_equal(b"abc", b"abd"));
    assert!(!bytes_equal(b"abc", b"ab"));
}

#[test]
fn document_has_twenty_years_of_each_event() {
    let c = sample_catalog();
    let doc = String::from_utf8(make_calendar(&c, 2024, &stamp())).unwrap();
    let lines: Vec<&str> = doc.lines().collect();
    assert_eq!(lines[0], "BEGIN:VCALENDAR");
    assert_eq!(lines[1], "PRODID:-//illicitonion//Annual events calendar//EN");
    assert_eq!(lines[2], "VERSION:2.0");
    assert_eq!(*lines.last().unwrap(), "END:VCALENDAR");
    assert_eq!(doc.matches("BEGIN:VEVENT\n").count(), 60);
    assert_eq!(doc.matches("END:VEVENT\n").count(), 60);
    assert!(doc.contains("SUMMARY:Independence Day\nDTSTART:20240704\nUID:be5f91344227e06ea10412607c54e92e53919b297876deeee23cd171867e068f\n"));
    assert!(doc.contains("DTSTART:20141127\n"));
    assert!(doc.contains("DTSTART:20330704\n"));
    assert!(!doc.contains("DTSTART:20340704\n"));
    assert!(!doc.contains("DTSTART:20130704\n"));
    assert_eq!(lines[3], "BEGIN:VEVENT");
    assert_eq!(lines[4], "SUMMARY:Independence Day");
    assert_eq!(lines[5], "DTSTART:20140704");
    assert_eq!(lines[7], "DTSTAMP:20240305T070809Z");
    assert_eq!(lines[8], "CREATED:20240305T070809Z");
    assert_eq!(lines[9], "LAST-MODIFIED:20240305T070809Z");
    assert_eq!(lines[10], "SEQUENCE:0");
    assert_eq!(lines[11], "END:VEVENT");
    assert_eq!(lines[13], "SUMMARY:Memorial Day");
    assert_eq!(lines[14], "DTSTART:20140526");
    assert_eq!(lines.len(), 3 + 60 * 9 + 1);
}

#[test]
fn empty_catalog_gives_bare_document() {
    let doc = make_calendar(&Catalog::new(), 2024, &stamp());
    assert_eq!(doc, b"BEGIN:VCALENDAR\nPRODID:-//illicitonion//Annual events calendar//EN\nVERSION:2.0\nEND:VCALENDAR\n".to_vec());
}
