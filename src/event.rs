//! Annual event descriptors and the resolver that places them in a given year.
use crate::date::{
    Date, Month, Weekday, days_in_month, is_valid_date, lemma_weekday_step, weekday_index,
    weekday_of, year_in_range, MAX_YEAR, MIN_YEAR,
};
use vstd::prelude::*;

verus! {

/// Which occurrence of a weekday within its month is meant.
#[derive(Clone, Copy, Debug, PartialEq, Eq, Structural)]
pub enum WeekInMonth {
    First,
    Second,
    Third,
    Fourth,
    Last,
}

/// How to walk a month to find an occurrence: from its first day forwards, or from its
/// last day backwards, stopping at the given match of the weekday.
#[derive(Clone, Copy, Debug, PartialEq, Eq, Structural)]
pub enum Direction {
    Forwards(u8),
    Backwards(u8),
}

impl WeekInMonth {
    /// The ordinal 1..=4 of the forward cases; `Last` is not among them.
    pub open spec fn ordinal(self) -> int {
        match self {
            WeekInMonth::First => 1,
            WeekInMonth::Second => 2,
            WeekInMonth::Third => 3,
            WeekInMonth::Fourth => 4,
            WeekInMonth::Last => 0,
        }
    }

    pub fn to_direction(&self) -> (r: Direction)
        ensures
            r == (match self {
                WeekInMonth::Last => Direction::Backwards(1),
                _ => Direction::Forwards(self.ordinal() as u8),
            }),
    {
        match self {
            WeekInMonth::First => Direction::Forwards(1),
            WeekInMonth::Second => Direction::Forwards(2),
            WeekInMonth::Third => Direction::Forwards(3),
            WeekInMonth::Fourth => Direction::Forwards(4),
            WeekInMonth::Last => Direction::Backwards(1),
        }
    }
}

/// A symbolic annual event.
#[derive(Clone, Copy, Debug, PartialEq, Eq, Structural)]
pub enum Event {
    /// The same month and day of the month every year.
    FixedDate(Month, u32),
    /// The given occurrence of a weekday within a month.
    FixedDayOfMonth(Month, Weekday, WeekInMonth),
}

/// Number of days `d` in `lo..hi` whose weekday in month `m` of year `y` is `w`.
pub open spec fn count_weekday(y: int, m: int, w: int, lo: int, hi: int) -> nat
    decreases hi - lo,
{
    if hi <= lo {
        0
    } else {
        count_weekday(y, m, w, lo, hi - 1) + if weekday_index(y, m, hi - 1) == w {
            1nat
        } else {
            0nat
        }
    }
}

/// What it means for `r` to be the date on which `e` falls in year `y`.
pub open spec fn resolves_to(e: Event, y: int, r: Date) -> bool {
    match e {
        Event::FixedDate(m, d) => r.year == y && r.month == m.index() && r.day == d,
        Event::FixedDayOfMonth(m, w, k) => {
            &&& r.year == y
            &&& r.month == m.index()
            &&& r.wf()
            &&& r.weekday_spec() == w.index()
            &&& match k {
                WeekInMonth::Last => forall|d: int|
                    r.day < d <= days_in_month(y, m.index()) ==> weekday_index(y, m.index(), d)
                        != w.index(),
                _ => count_weekday(y, m.index(), w.index(), 1, r.day as int) == k.ordinal() - 1,
            }
        },
    }
}

impl Event {
    pub open spec fn month(self) -> Month {
        match self {
            Event::FixedDate(m, _) => m,
            Event::FixedDayOfMonth(m, _, _) => m,
        }
    }

    /// A fixed date must exist in every year, so February 29th is excluded.
    pub open spec fn wf(self) -> bool {
        match self {
            Event::FixedDate(m, d) => 1 <= d <= days_in_month(1970, m.index()),
            Event::FixedDayOfMonth(_, _, _) => true,
        }
    }

    /// The date on which the event falls in `year`, or `None` when the year lies
    /// outside `MIN_YEAR..=MAX_YEAR`.
    pub fn to_date(&self, year: i32) -> (r: Option<Date>)
        requires
            self.wf(),
        ensures
            r is Some <==> year_in_range(year as int),
            r matches Some(date) ==> resolves_to(*self, year as int, date),
    {
        if year < MIN_YEAR || year > MAX_YEAR {
            return None;
        }
        match self {
            Event::FixedDate(month, day_of_month) => {
                Some(Date { year, month: month.number_from_month(), day: *day_of_month })
            },
            Event::FixedDayOfMonth(month, weekday, week_in_month) => {
                let m = month.number_from_month();
                match week_in_month.to_direction() {
                    Direction::Forwards(k) => Some(nth_weekday(year, m, *weekday, k)),
                    Direction::Backwards(_) => Some(last_weekday(year, m, *weekday)),
                }
            },
        }
    }
}

/// Every well-formed event resolves, in a year of the supported range, to a valid
/// date of that year in the event's own month.
pub proof fn lemma_resolved_date_is_valid(e: Event, y: int, r: Date)
    requires
        e.wf(),
        year_in_range(y),
        resolves_to(e, y, r),
    ensures
        r.wf(),
        r.year == y,
        r.month == e.month().index(),
{
}

/// The first to fourth occurrence of a weekday falls on that weekday, with exactly
/// `k - 1` earlier days of the month on the same weekday.
pub proof fn lemma_nth_occurrence(m: Month, w: Weekday, k: WeekInMonth, y: int, r: Date)
    requires
        k != WeekInMonth::Last,
        resolves_to(Event::FixedDayOfMonth(m, w, k), y, r),
    ensures
        r.weekday_spec() == w.index(),
        count_weekday(y, m.index(), w.index(), 1, r.day as int) == k.ordinal() - 1,
{
}

/// The last occurrence of a weekday falls on that weekday, and no later day of the
/// month does.
pub proof fn lemma_last_occurrence(m: Month, w: Weekday, y: int, r: Date)
    requires
        resolves_to(Event::FixedDayOfMonth(m, w, WeekInMonth::Last), y, r),
    ensures
        r.weekday_spec() == w.index(),
        forall|d: int|
            r.day < d <= days_in_month(y, m.index()) ==> weekday_index(y, m.index(), d)
                != w.index(),
{
}

/// A fixed date resolves to exactly that month and day of the year.
pub proof fn lemma_fixed_date(m: Month, d: u32, y: int, r: Date)
    requires
        resolves_to(Event::FixedDate(m, d), y, r),
    ensures
        r.year == y,
        r.month == m.index(),
        r.day == d,
{
}

/// The date on which `e` falls in year `y`.
pub open spec fn resolved(e: Event, y: int) -> Date {
    choose|r: Date| resolves_to(e, y, r)
}

/// At most one date satisfies `resolves_to`, so `resolved` names the date that
/// `to_date` returns.
pub proof fn lemma_resolution_unique(e: Event, y: int, r: Date)
    requires
        resolves_to(e, y, r),
    ensures
        resolved(e, y) == r,
{
    let q = resolved(e, y);
    assert(resolves_to(e, y, q));
    if let Event::FixedDayOfMonth(m, w, k) = e {
        if k != WeekInMonth::Last {
            if q.day < r.day {
                lemma_count_split(y, m.index(), w.index(), 1, q.day as int, r.day as int);
                lemma_count_split(y, m.index(), w.index(), q.day as int, q.day + 1, r.day as int);
                reveal_with_fuel(count_weekday, 2);
            } else if r.day < q.day {
                lemma_count_split(y, m.index(), w.index(), 1, r.day as int, q.day as int);
                lemma_count_split(y, m.index(), w.index(), r.day as int, r.day + 1, q.day as int);
                reveal_with_fuel(count_weekday, 2);
            }
        } else {
            assert(!(q.day < r.day));
            assert(!(r.day < q.day));
        }
    }
}

/// Each run of seven consecutive days holds exactly one day of a given weekday.
pub proof fn lemma_week_holds_one(y: int, m: int, w: int, lo: int)
    requires
        0 <= w < 7,
    ensures
        count_weekday(y, m, w, lo, lo + 7) == 1,
        exists|d: int| lo <= d < lo + 7 && weekday_index(y, m, d) == w,
{
    reveal_with_fuel(count_weekday, 8);
    lemma_weekday_step(y, m, lo);
    lemma_weekday_step(y, m, lo + 1);
    lemma_weekday_step(y, m, lo + 2);
    lemma_weekday_step(y, m, lo + 3);
    lemma_weekday_step(y, m, lo + 4);
    lemma_weekday_step(y, m, lo + 5);
    let a = weekday_index(y, m, lo);
    let i = if w >= a { w - a } else { w - a + 7 };
    assert(weekday_index(y, m, lo + i) == w);
}

/// Counting over `lo..hi` is counting over `lo..mid` and then `mid..hi`.
pub proof fn lemma_count_split(y: int, m: int, w: int, lo: int, mid: int, hi: int)
    requires
        lo <= mid <= hi,
    ensures
        count_weekday(y, m, w, lo, hi) == count_weekday(y, m, w, lo, mid) + count_weekday(
            y,
            m,
            w,
            mid,
            hi,
        ),
    decreases hi - mid,
{
    if hi > mid {
        lemma_count_split(y, m, w, lo, mid, hi - 1);
    }
}

/// The first `7 * j` days of a month hold `j` days of each weekday.
pub proof fn lemma_count_weeks(y: int, m: int, w: int, j: nat)
    requires
        0 <= w < 7,
    ensures
        count_weekday(y, m, w, 1, 1 + 7 * j as int) == j,
    decreases j,
{
    if j > 0 {
        lemma_count_weeks(y, m, w, (j - 1) as nat);
        lemma_count_split(y, m, w, 1, 1 + 7 * (j - 1), 1 + 7 * j as int);
        lemma_week_holds_one(y, m, w, 1 + 7 * (j - 1));
    }
}

/// The `k`-th day of `month` in `year` that falls on `weekday`, walking forwards from
/// the first of the month.
fn nth_weekday(year: i32, month: u32, weekday: Weekday, k: u8) -> (r: Date)
    requires
        year_in_range(year as int),
        1 <= month <= 12,
        1 <= k <= 4,
    ensures
        r.year == year,
        r.month == month,
        r.wf(),
        r.weekday_spec() == weekday.index(),
        count_weekday(year as int, month as int, weekday.index(), 1, r.day as int) == k - 1,
{
    let mut count: u8 = k;
    let mut possible_date = Date { year, month, day: 1 };
    proof {
        lemma_count_weeks(year as int, month as int, weekday.index(), 4);
    }
    loop
        invariant
            possible_date.year == year,
            possible_date.month == month,
            1 <= possible_date.day <= 28,
            1 <= count <= k <= 4,
            1 <= month <= 12,
            year_in_range(year as int),
            count_weekday(year as int, month as int, weekday.index(), 1, possible_date.day as int)
                == k - count,
            count_weekday(year as int, month as int, weekday.index(), 1, 29) == 4,
        decreases 28 - possible_date.day,
    {
        let ghost y = year as int;
        let ghost m = month as int;
        let ghost w = weekday.index();
        let ghost d = possible_date.day as int;
        assert(count_weekday(y, m, w, 1, d + 1) == count_weekday(y, m, w, 1, d) + if weekday_index(
            y,
            m,
            d,
        ) == w {
            1nat
        } else {
            0nat
        });
        if weekday_of(&possible_date) == weekday {
            count -= 1;
            if count == 0 {
                return possible_date;
            }
        }
        proof {
            if d >= 28 {
                lemma_count_split(y, m, w, 1, 29, d + 1);
            }
        }
        possible_date = possible_date.succ();
    }
}

/// The last day of `month` in `year` that falls on `weekday`, walking backwards from
/// the day before the first of the following month.
fn last_weekday(year: i32, month: u32, weekday: Weekday) -> (r: Date)
    requires
        year_in_range(year as int),
        1 <= month <= 12,
    ensures
        r.year == year,
        r.month == month,
        r.wf(),
        r.weekday_spec() == weekday.index(),
        forall|d: int|
            r.day < d <= days_in_month(year as int, month as int) ==> weekday_index(
                year as int,
                month as int,
                d,
            ) != weekday.index(),
{
    let this_month = month_from_number(month);
    let next_month = this_month.succ();
    let year_of_next_month = if next_month.number_from_month() < month {
        year + 1
    } else {
        year
    };
    let first_of_next = Date { year: year_of_next_month, month: next_month.number_from_month(), day: 1 };
    let mut possible_date = first_of_next.pred();
    let ghost dim = days_in_month(year as int, month as int);
    loop
        invariant
            possible_date.year == year,
            possible_date.month == month,
            1 <= possible_date.day <= dim,
            dim == days_in_month(year as int, month as int),
            1 <= month <= 12,
            year_in_range(year as int),
            forall|d: int|
                possible_date.day < d <= dim ==> weekday_index(year as int, month as int, d)
                    != weekday.index(),
        decreases possible_date.day,
    {
        if weekday_of(&possible_date) == weekday {
            return possible_date;
        }
        proof {
            let d = possible_date.day as int;
            if d + 6 <= dim {
                lemma_week_holds_one(year as int, month as int, weekday.index(), d);
            }
        }
        possible_date = possible_date.pred();
    }
}

/// The month numbered `n`.
fn month_from_number(n: u32) -> (r: Month)
    requires
        1 <= n <= 12,
    ensures
        r.index() == n,
{
    match n {
        1 => Month::January,
        2 => Month::February,
        3 => Month::March,
        4 => Month::April,
        5 => Month::May,
        6 => Month::June,
        7 => Month::July,
        8 => Month::August,
        9 => Month::September,
        10 => Month::October,
        11 => Month::November,
        _ => Month::December,
    }
}

} // verus!
