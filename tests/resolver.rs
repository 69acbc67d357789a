use annual_events::date::{Date, Month, Weekday};
use annual_events::event::{Direction, Event, WeekInMonth};

fn ymd(year: i32, month: u32, day: u32) -> Date {
    Date { year, month, day }
}

#[test]
fn fixed_date_independence_day() {
    let e = Event::FixedDate(Month::July, 4);
    assert_eq!(e.to_date(2024), Some(ymd(2024, 7, 4)));
}

#[test]
fn last_monday_of_may() {
    let e = Event::FixedDayOfMonth(Month::May, Weekday::Mon, WeekInMonth::Last);
    assert_eq!(e.to_date(2024), Some(ymd(2024, 5, 27)));
}

#[test]
fn fourth_thursday_of_november() {
    let e = Event::FixedDayOfMonth(Month::November, Weekday::Thu, WeekInMonth::Fourth);
    assert_eq!(e.to_date(2024), Some(ymd(2024, 11, 28)));
}

#[test]
fn third_monday_of_february() {
    let e = Event::FixedDayOfMonth(Month::February, Weekday::Mon, WeekInMonth::Third);
    assert_eq!(e.to_date(2024), Some(ymd(2024, 2, 19)));
}

#[test]
fn last_sunday_of_december_rolls_year() {
    let e = Event::FixedDayOfMonth(Month::December, Weekday::Sun, WeekInMonth::Last);
    assert_eq!(e.to_date(2024), Some(ymd(2024, 12, 29)));
}

#[test]
fn first_occurrence_on_first_day() {
    // 2024-06-01 was a Saturday.
    let e = Event::FixedDayOfMonth(Month::June, Weekday::Sat, WeekInMonth::First);
    assert_eq!(e.to_date(2024), Some(ymd(2024, 6, 1)));
}

#[test]
fn last_occurrence_on_last_day() {
    // 2024-02-29 was a Thursday.
    let e = Event::FixedDayOfMonth(Month::February, Weekday::Thu, WeekInMonth::Last);
    assert_eq!(e.to_date(2024), Some(ymd(2024, 2, 29)));
    // 2023-02-28 was a Tuesday.
    let e = Event::FixedDayOfMonth(Month::February, Weekday::Tue, WeekInMonth::Last);
    assert_eq!(e.to_date(2023), Some(ymd(2023, 2, 28)));
}

#[test]
fn fourth_occurrence_in_short_february() {
    // 2026-02-01 is a Sunday; the fourth Saturday is the 28th.
    let e = Event::FixedDayOfMonth(Month::February, Weekday::Sat, WeekInMonth::Fourth);
    assert_eq!(e.to_date(2026), Some(ymd(2026, 2, 28)));
}

#[test]
fn second_occurrence() {
    // 2024-05-12 was the second Sunday of May.
    let e = Event::FixedDayOfMonth(Month::May, Weekday::Sun, WeekInMonth::Second);
    assert_eq!(e.to_date(2024), Some(ymd(2024, 5, 12)));
}

#[test]
fn resolves_across_window_in_month() {
    let events = [
        Event::FixedDate(Month::December, 25),
        Event::FixedDayOfMonth(Month::September, Weekday::Mon, WeekInMonth::First),
        Event::FixedDayOfMonth(Month::January, Weekday::Wed, WeekInMonth::Last),
    ];
    for year in 1970..=2100 {
        for e in events.iter() {
            let d = e.to_date(year).unwrap();
            assert_eq!(d.year, year);
            let m = match e {
                Event::FixedDate(m, _) => m.number_from_month(),
                Event::FixedDayOfMonth(m, _, _) => m.number_from_month(),
            };
            assert_eq!(d.month, m);
            assert!(d.day >= 1 && d.day <= Date::days_in_month(year, m));
        }
    }
}

#[test]
fn years_out_of_range_are_rejected() {
    let e = Event::FixedDate(Month::July, 4);
    assert_eq!(e.to_date(0), None);
    assert_eq!(e.to_date(10000), None);
    assert_eq!(e.to_date(1), Some(ymd(1, 7, 4)));
    assert_eq!(e.to_date(9999), Some(ymd(9999, 7, 4)));
}

#[test]
fn week_in_month_directions() {
    assert_eq!(WeekInMonth::First.to_direction(), Direction::Forwards(1));
    assert_eq!(WeekInMonth::Fourth.to_direction(), Direction::Forwards(4));
    assert_eq!(WeekInMonth::Last.to_direction(), Direction::Backwards(1));
}

#[test]
fn month_succ_wraps() {
    assert_eq!(Month::December.succ(), Month::January);
    assert_eq!(Month::March.succ(), Month::April);
    assert_eq!(Month::December.number_from_month(), 12);
}

#[test]
fn date_succ_and_pred() {
    assert_eq!(ymd(2024, 12, 31).succ(), ymd(2025, 1, 1));
    assert_eq!(ymd(2024, 2, 28).succ(), ymd(2024, 2, 29));
    assert_eq!(ymd(2023, 2, 28).succ(), ymd(2023, 3, 1));
    assert_eq!(ymd(2025, 1, 1).pred(), ymd(2024, 12, 31));
    assert_eq!(ymd(2024, 3, 1).pred(), ymd(2024, 2, 29));
    assert_eq!(ymd(1900, 3, 1).pred(), ymd(1900, 2, 28));
    assert_eq!(ymd(2000, 3, 1).pred(), ymd(2000, 2, 29));
}
