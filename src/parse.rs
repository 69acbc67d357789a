//! The text form of the catalog: one `<summary>: <datespec>` per line, where the
//! datespec is `FixedDate,<Month>,<Day>` or `FixedDayOfMonth,<Month>,<Weekday>,<Week>`.
use crate::catalog::{Catalog, bytes_equal, catalog_insert};
use crate::date::{Date, Month, Weekday, days_in_month};
use crate::event::{Event, WeekInMonth};
use vstd::prelude::*;
use vstd::string::StringSliceAdditionalSpecFns;

verus! {

/// Why a line of the catalog text was refused.
#[derive(Clone, Copy, Debug, PartialEq, Eq, Structural)]
pub enum ParseErrorKind {
    MissingDelimiter,
    EmptySummary,
    UnknownShape,
    UnknownMonth,
    InvalidDay,
    DayOutOfRange,
    UnknownWeekday,
    UnknownWeekInMonth,
}

/// A refused line: its index from zero, its trimmed content, and the reason.
#[derive(Clone, Debug)]
pub struct CatalogError {
    pub line: usize,
    pub content: Vec<u8>,
    pub kind: ParseErrorKind,
}

pub open spec fn lit(s: &str) -> Seq<u8> {
    s.spec_bytes()
}

/// The pieces of `s` between occurrences of `c`; there is always at least one.
pub open spec fn split(s: Seq<u8>, c: u8) -> Seq<Seq<u8>>
    decreases s.len(),
{
    if s.len() == 0 {
        seq![seq![]]
    } else {
        let p = split(s.drop_last(), c);
        if s.last() == c {
            p.push(seq![])
        } else {
            p.update(p.len() - 1, p.last().push(s.last()))
        }
    }
}

pub open spec fn is_space(b: u8) -> bool {
    b == 9 || b == 10 || b == 11 || b == 12 || b == 13 || b == 32
}

pub open spec fn trim_start(s: Seq<u8>) -> Seq<u8>
    decreases s.len(),
{
    if s.len() > 0 && is_space(s[0]) {
        trim_start(s.drop_first())
    } else {
        s
    }
}

pub open spec fn trim_end(s: Seq<u8>) -> Seq<u8>
    decreases s.len(),
{
    if s.len() > 0 && is_space(s.last()) {
        trim_end(s.drop_last())
    } else {
        s
    }
}

/// `s` without leading and trailing ASCII whitespace.
pub open spec fn trim(s: Seq<u8>) -> Seq<u8> {
    trim_end(trim_start(s))
}

/// The largest `i < k` at which `": "` starts in `s`, or -1.
pub open spec fn last_delim(s: Seq<u8>, k: int) -> int
    decreases k,
{
    if k <= 0 {
        -1
    } else if k < s.len() && s[k - 1] == 58 && s[k] == 32 {
        k - 1
    } else {
        last_delim(s, k - 1)
    }
}

pub open spec fn month_named(s: Seq<u8>) -> Option<Month> {
    if s == lit("January") {
        Some(Month::January)
    } else if s == lit("February") {
        Some(Month::February)
    } else if s == lit("March") {
        Some(Month::March)
    } else if s == lit("April") {
        Some(Month::April)
    } else if s == lit("May") {
        Some(Month::May)
    } else if s == lit("June") {
        Some(Month::June)
    } else if s == lit("July") {
        Some(Month::July)
    } else if s == lit("August") {
        Some(Month::August)
    } else if s == lit("September") {
        Some(Month::September)
    } else if s == lit("October") {
        Some(Month::October)
    } else if s == lit("November") {
        Some(Month::November)
    } else if s == lit("December") {
        Some(Month::December)
    } else {
        None
    }
}

/// A weekday is recognised by its first three letters.
pub open spec fn weekday_named(s: Seq<u8>) -> Option<Weekday> {
    if s.len() < 3 {
        None
    } else {
        let t = s.take(3);
        if t == lit("Mon") {
            Some(Weekday::Mon)
        } else if t == lit("Tue") {
            Some(Weekday::Tue)
        } else if t == lit("Wed") {
            Some(Weekday::Wed)
        } else if t == lit("Thu") {
            Some(Weekday::Thu)
        } else if t == lit("Fri") {
            Some(Weekday::Fri)
        } else if t == lit("Sat") {
            Some(Weekday::Sat)
        } else if t == lit("Sun") {
            Some(Weekday::Sun)
        } else {
            None
        }
    }
}

pub open spec fn week_named(s: Seq<u8>) -> Option<WeekInMonth> {
    if s == lit("First") {
        Some(WeekInMonth::First)
    } else if s == lit("Second") {
        Some(WeekInMonth::Second)
    } else if s == lit("Third") {
        Some(WeekInMonth::Third)
    } else if s == lit("Fourth") {
        Some(WeekInMonth::Fourth)
    } else if s == lit("Last") {
        Some(WeekInMonth::Last)
    } else {
        None
    }
}

pub open spec fn strip_zeros(s: Seq<u8>) -> Seq<u8>
    decreases s.len(),
{
    if s.len() > 0 && s[0] == 48 {
        strip_zeros(s.drop_first())
    } else {
        s
    }
}

pub open spec fn all_digits(s: Seq<u8>) -> bool {
    forall|i: int| 0 <= i < s.len() ==> 48 <= #[trigger] s[i] <= 57
}

pub open spec fn decimal(s: Seq<u8>) -> int
    decreases s.len(),
{
    if s.len() == 0 {
        0
    } else {
        decimal(s.drop_last()) * 10 + (s.last() - 48)
    }
}

/// The day of a fixed date: decimal digits, leading zeros allowed, that fit in a `u32`.
pub open spec fn day_value(s: Seq<u8>) -> Option<int> {
    let t = strip_zeros(s);
    if t.len() > 0 && all_digits(t) && decimal(t) <= u32::MAX {
        Some(decimal(t))
    } else {
        None
    }
}

/// The event a datespec describes, or why it is refused.
pub open spec fn parse_datespec(s: Seq<u8>) -> Result<Event, ParseErrorKind> {
    let parts = split(s, 44);
    if parts.len() == 3 && parts[0] == lit("FixedDate") {
        match month_named(parts[1]) {
            None => Err(ParseErrorKind::UnknownMonth),
            Some(m) => match day_value(parts[2]) {
                None => Err(ParseErrorKind::InvalidDay),
                Some(d) => if 1 <= d <= days_in_month(1970, m.index()) {
                    Ok(Event::FixedDate(m, d as u32))
                } else {
                    Err(ParseErrorKind::DayOutOfRange)
                },
            },
        }
    } else if parts.len() == 4 && parts[0] == lit("FixedDayOfMonth") {
        match month_named(parts[1]) {
            None => Err(ParseErrorKind::UnknownMonth),
            Some(m) => match weekday_named(parts[2]) {
                None => Err(ParseErrorKind::UnknownWeekday),
                Some(w) => match week_named(parts[3]) {
                    None => Err(ParseErrorKind::UnknownWeekInMonth),
                    Some(k) => Ok(Event::FixedDayOfMonth(m, w, k)),
                },
            },
        }
    } else {
        Err(ParseErrorKind::UnknownShape)
    }
}

/// A line: `None` when blank, else its summary and event, or why it is refused.
pub open spec fn parse_line(raw: Seq<u8>) -> Option<Result<(Seq<u8>, Event), ParseErrorKind>> {
    parse_trimmed(trim(raw))
}

/// A line without surrounding whitespace, as `parse_line` reads it.
pub open spec fn parse_trimmed(l: Seq<u8>) -> Option<Result<(Seq<u8>, Event), ParseErrorKind>> {
    if l.len() == 0 {
        None
    } else {
        let i = last_delim(l, l.len() - 1);
        if i < 0 {
            Some(Err(ParseErrorKind::MissingDelimiter))
        } else if i == 0 {
            Some(Err(ParseErrorKind::EmptySummary))
        } else {
            match parse_datespec(l.subrange(i + 2, l.len() as int)) {
                Ok(e) => Some(Ok((l.take(i), e))),
                Err(k) => Some(Err(k)),
            }
        }
    }
}

/// The catalog of the first `n` lines, each entry added in turn, or the first refused
/// line with its reason.
pub open spec fn parse_lines(lines: Seq<Seq<u8>>, n: int) -> Result<
    Seq<(Seq<u8>, Event)>,
    (int, ParseErrorKind),
>
    decreases n,
{
    if n <= 0 {
        Ok(seq![])
    } else {
        match parse_lines(lines, n - 1) {
            Err(e) => Err(e),
            Ok(c) => match parse_line(lines[n - 1]) {
                None => Ok(c),
                Some(Err(k)) => Err((n - 1, k)),
                Some(Ok((s, e))) => Ok(catalog_insert(c, s, e)),
            },
        }
    }
}

/// The catalog that `text` describes.
pub open spec fn parse_text(text: Seq<u8>) -> Result<Seq<(Seq<u8>, Event)>, (int, ParseErrorKind)> {
    let lines = split(text, 10);
    parse_lines(lines, lines.len() as int)
}

pub proof fn lemma_split_len(s: Seq<u8>, c: u8)
    ensures
        split(s, c).len() >= 1,
    decreases s.len(),
{
    if s.len() > 0 {
        lemma_split_len(s.drop_last(), c);
    }
}

/// The pieces of `s` between occurrences of `c`.
pub fn split_bytes(s: &[u8], c: u8) -> (r: Vec<Vec<u8>>)
    ensures
        r@.len() == split(s@, c).len(),
        forall|i: int| 0 <= i < r@.len() ==> (#[trigger] r@[i])@ == split(s@, c)[i],
{
    let mut parts: Vec<Vec<u8>> = Vec::new();
    let mut cur: Vec<u8> = Vec::new();
    let mut i: usize = 0;
    assert(s@.take(0) =~= Seq::<u8>::empty());
    while i < s.len()
        invariant
            i <= s@.len(),
            split(s@.take(i as int), c).len() == parts@.len() + 1,
            forall|j: int| 0 <= j < parts@.len() ==> (#[trigger] parts@[j])@ == split(s@.take(i as int), c)[j],
            cur@ == split(s@.take(i as int), c).last(),
        decreases s@.len() - i,
    {
        let ghost before = s@.take(i as int);
        assert(s@.take(i + 1).drop_last() =~= before);
        proof {
            lemma_split_len(before, c);
        }
        if s[i] == c {
            parts.push(cur);
            cur = Vec::new();
        } else {
            cur.push(s[i]);
        }
        i = i + 1;
    }
    assert(s@.take(i as int) =~= s@);
    parts.push(cur);
    parts
}

/// The bytes of `s` from `a` up to `b`.
fn copy_range(s: &[u8], a: usize, b: usize) -> (r: Vec<u8>)
    requires
        a <= b <= s@.len(),
    ensures
        r@ == s@.subrange(a as int, b as int),
{
    let mut out: Vec<u8> = Vec::new();
    let mut i: usize = a;
    while i < b
        invariant
            a <= i <= b <= s@.len(),
            out@ == s@.subrange(a as int, i as int),
        decreases b - i,
    {
        out.push(s[i]);
        i = i + 1;
        assert(out@ =~= s@.subrange(a as int, i as int));
    }
    out
}

fn is_space_byte(b: u8) -> (r: bool)
    ensures
        r == is_space(b),
{
    b == 9 || b == 10 || b == 11 || b == 12 || b == 13 || b == 32
}

/// `s` without leading and trailing ASCII whitespace.
pub fn trim_bytes(s: &[u8]) -> (r: Vec<u8>)
    ensures
        r@ == trim(s@),
{
    let n = s.len();
    let mut a: usize = 0;
    assert(s@.subrange(0, n as int) =~= s@);
    while a < n && is_space_byte(s[a])
        invariant
            a <= n == s@.len(),
            trim_start(s@) == trim_start(s@.subrange(a as int, n as int)),
        decreases n - a,
    {
        assert(s@.subrange(a as int, n as int).drop_first() =~= s@.subrange(a + 1, n as int));
        a = a + 1;
    }
    let mut b: usize = n;
    while b > a && is_space_byte(s[b - 1])
        invariant
            a <= b <= n == s@.len(),
            trim(s@) == trim_end(s@.subrange(a as int, b as int)),
        decreases b,
    {
        assert(s@.subrange(a as int, b as int).drop_last() =~= s@.subrange(a as int, b - 1));
        b = b - 1;
    }
    copy_range(s, a, b)
}

proof fn lemma_last_delim_bounds(s: Seq<u8>, k: int)
    ensures
        -1 <= last_delim(s, k) < k || last_delim(s, k) == -1,
        last_delim(s, k) >= 0 ==> last_delim(s, k) + 1 < s.len(),
    decreases k,
{
    if k > 0 {
        lemma_last_delim_bounds(s, k - 1);
    }
}

/// A refused line ends the parse: later lines do not change the outcome.
proof fn lemma_parse_lines_err(lines: Seq<Seq<u8>>, i: int, n: int)
    requires
        0 <= i <= n,
        parse_lines(lines, i) is Err,
    ensures
        parse_lines(lines, n) == parse_lines(lines, i),
    decreases n - i,
{
    if n > i {
        lemma_parse_lines_err(lines, i, n - 1);
    }
}

/// Where the last `": "` in `s` starts.
fn find_last_delim(s: &[u8]) -> (r: Option<usize>)
    ensures
        r matches Some(i) ==> i + 1 < s@.len(),
        r matches Some(i) ==> last_delim(s@, s@.len() - 1) == i,
        r is None ==> last_delim(s@, s@.len() - 1) < 0,
{
    proof {
        lemma_last_delim_bounds(s@, s@.len() - 1);
    }
    if s.len() == 0 {
        return None;
    }
    let mut k: usize = s.len() - 1;
    while k > 0
        invariant
            k < s@.len(),
            last_delim(s@, s@.len() - 1) == last_delim(s@, k as int),
        decreases k,
    {
        if s[k - 1] == 58 && s[k] == 32 {
            return Some(k - 1);
        }
        k = k - 1;
    }
    None
}

fn parse_month(s: &[u8]) -> (r: Option<Month>)
    ensures
        r == month_named(s@),
{
    if bytes_equal(s, "January".as_bytes()) {
        Some(Month::January)
    } else if bytes_equal(s, "February".as_bytes()) {
        Some(Month::February)
    } else if bytes_equal(s, "March".as_bytes()) {
        Some(Month::March)
    } else if bytes_equal(s, "April".as_bytes()) {
        Some(Month::April)
    } else if bytes_equal(s, "May".as_bytes()) {
        Some(Month::May)
    } else if bytes_equal(s, "June".as_bytes()) {
        Some(Month::June)
    } else if bytes_equal(s, "July".as_bytes()) {
        Some(Month::July)
    } else if bytes_equal(s, "August".as_bytes()) {
        Some(Month::August)
    } else if bytes_equal(s, "September".as_bytes()) {
        Some(Month::September)
    } else if bytes_equal(s, "October".as_bytes()) {
        Some(Month::October)
    } else if bytes_equal(s, "November".as_bytes()) {
        Some(Month::November)
    } else if bytes_equal(s, "December".as_bytes()) {
        Some(Month::December)
    } else {
        None
    }
}

fn parse_weekday(s: &[u8]) -> (r: Option<Weekday>)
    ensures
        r == weekday_named(s@),
{
    if s.len() < 3 {
        return None;
    }
    let t = copy_range(s, 0, 3);
    assert(t@ =~= s@.take(3));
    let t = t.as_slice();
    if bytes_equal(t, "Mon".as_bytes()) {
        Some(Weekday::Mon)
    } else if bytes_equal(t, "Tue".as_bytes()) {
        Some(Weekday::Tue)
    } else if bytes_equal(t, "Wed".as_bytes()) {
        Some(Weekday::Wed)
    } else if bytes_equal(t, "Thu".as_bytes()) {
        Some(Weekday::Thu)
    } else if bytes_equal(t, "Fri".as_bytes()) {
        Some(Weekday::Fri)
    } else if bytes_equal(t, "Sat".as_bytes()) {
        Some(Weekday::Sat)
    } else if bytes_equal(t, "Sun".as_bytes()) {
        Some(Weekday::Sun)
    } else {
        None
    }
}

fn parse_week(s: &[u8]) -> (r: Option<WeekInMonth>)
    ensures
        r == week_named(s@),
{
    if bytes_equal(s, "First".as_bytes()) {
        Some(WeekInMonth::First)
    } else if bytes_equal(s, "Second".as_bytes()) {
        Some(WeekInMonth::Second)
    } else if bytes_equal(s, "Third".as_bytes()) {
        Some(WeekInMonth::Third)
    } else if bytes_equal(s, "Fourth".as_bytes()) {
        Some(WeekInMonth::Fourth)
    } else if bytes_equal(s, "Last".as_bytes()) {
        Some(WeekInMonth::Last)
    } else {
        None
    }
}

/// The day of a fixed date: decimal digits after any leading zeros, within `u32`.
pub fn parse_day(s: &[u8]) -> (r: Option<u32>)
    ensures
        r matches Some(d) ==> day_value(s@) == Some(d as int),
        r is None ==> day_value(s@) is None,
{
    let n = s.len();
    let mut a: usize = 0;
    assert(s@.subrange(0, n as int) =~= s@);
    while a < n && s[a] == 48
        invariant
            a <= n == s@.len(),
            strip_zeros(s@) == strip_zeros(s@.subrange(a as int, n as int)),
        decreases n - a,
    {
        assert(s@.subrange(a as int, n as int).drop_first() =~= s@.subrange(a + 1, n as int));
        a = a + 1;
    }
    let ghost t = s@.subrange(a as int, n as int);
    assert(strip_zeros(s@) == t);
    if a == n {
        return None;
    }
    let cap: u64 = 0x1_0000_0000;
    let mut v: u64 = 0;
    let mut i: usize = a;
    assert(t.take(0) =~= Seq::<u8>::empty());
    while i < n
        invariant
            a <= i <= n == s@.len(),
            t == s@.subrange(a as int, n as int),
            strip_zeros(s@) == t,
            t.len() > 0,
            all_digits(t.take(i - a)),
            cap == 0x1_0000_0000,
            v == if decimal(t.take(i - a)) < cap { decimal(t.take(i - a)) } else { cap as int },
            decimal(t.take(i - a)) >= 0,
        decreases n - i,
    {
        let b = s[i];
        if b < 48 || b > 57 {
            assert(t[i - a] == b);
            assert(!all_digits(t)) by {
                if all_digits(t) {
                    assert(48 <= t[i - a] <= 57);
                }
            }
            return None;
        }
        let ghost prev = t.take(i - a);
        assert(t.take(i - a + 1).drop_last() =~= prev);
        assert(t.take(i - a + 1).last() == b);
        if v < cap {
            v = v * 10 + (b - 48) as u64;
            if v > cap {
                v = cap;
            }
        }
        i = i + 1;
        assert(all_digits(t.take(i - a))) by {
            assert forall|j: int| 0 <= j < t.take(i - a).len() implies 48 <= #[trigger] t.take(
                i - a,
            )[j] <= 57 by {
                if j < prev.len() {
                    assert(t.take(i - a)[j] == prev[j]);
                }
            }
        }
    }
    assert(t.take(n - a) =~= t);
    if v >= cap {
        None
    } else {
        Some(v as u32)
    }
}

/// The event a datespec describes, or why it is refused.
pub fn parse_datespec_bytes(s: &[u8]) -> (r: Result<Event, ParseErrorKind>)
    ensures
        r == parse_datespec(s@),
{
    let parts = split_bytes(s, 44);
    if parts.len() == 3 && bytes_equal(parts[0].as_slice(), "FixedDate".as_bytes()) {
        match parse_month(parts[1].as_slice()) {
            None => Err(ParseErrorKind::UnknownMonth),
            Some(m) => match parse_day(parts[2].as_slice()) {
                None => Err(ParseErrorKind::InvalidDay),
                Some(d) => {
                    let max = Date::days_in_month(1970, m.number_from_month());
                    if 1 <= d && d <= max {
                        Ok(Event::FixedDate(m, d))
                    } else {
                        Err(ParseErrorKind::DayOutOfRange)
                    }
                },
            },
        }
    } else if parts.len() == 4 && bytes_equal(parts[0].as_slice(), "FixedDayOfMonth".as_bytes()) {
        match parse_month(parts[1].as_slice()) {
            None => Err(ParseErrorKind::UnknownMonth),
            Some(m) => match parse_weekday(parts[2].as_slice()) {
                None => Err(ParseErrorKind::UnknownWeekday),
                Some(w) => match parse_week(parts[3].as_slice()) {
                    None => Err(ParseErrorKind::UnknownWeekInMonth),
                    Some(k) => Ok(Event::FixedDayOfMonth(m, w, k)),
                },
            },
        }
    } else {
        Err(ParseErrorKind::UnknownShape)
    }
}

/// A trimmed line: `None` when blank, else its summary and event, or why it is refused.
pub fn parse_entry(l: &[u8]) -> (r: Option<Result<(Vec<u8>, Event), ParseErrorKind>>)
    ensures
        r is None <==> parse_trimmed(l@) is None,
        r matches Some(Ok((summary, e))) ==> parse_trimmed(l@) == Some(
            Ok::<(Seq<u8>, Event), ParseErrorKind>((summary@, e)),
        ),
        r matches Some(Err(k)) ==> parse_trimmed(l@) == Some(
            Err::<(Seq<u8>, Event), ParseErrorKind>(k),
        ),
{
    if l.len() == 0 {
        return None;
    }
    match find_last_delim(l) {
        None => Some(Err(ParseErrorKind::MissingDelimiter)),
        Some(i) => {
            if i == 0 {
                Some(Err(ParseErrorKind::EmptySummary))
            } else {
                let spec_part = copy_range(l, i + 2, l.len());
                match parse_datespec_bytes(spec_part.as_slice()) {
                    Ok(e) => {
                        let summary = copy_range(l, 0, i);
                        assert(summary@ =~= l@.take(i as int));
                        Some(Ok((summary, e)))
                    },
                    Err(k) => Some(Err(k)),
                }
            }
        },
    }
}

/// The catalog that `text` describes, or the first line that it refuses.
pub fn parse_catalog(text: &[u8]) -> (r: Result<Catalog, CatalogError>)
    ensures
        r matches Ok(c) ==> c.wf() && parse_text(text@) == Ok::<
            Seq<(Seq<u8>, Event)>,
            (int, ParseErrorKind),
        >(c@),
        r matches Err(err) ==> parse_text(text@) == Err::<Seq<(Seq<u8>, Event)>, (int, ParseErrorKind)>(
            (err.line as int, err.kind),
        ) && err.content@ == trim(split(text@, 10)[err.line as int]),
{
    let lines = split_bytes(text, 10);
    let ghost ls = split(text@, 10);
    let mut catalog = Catalog::new();
    let mut i: usize = 0;
    while i < lines.len()
        invariant
            i <= lines@.len() == ls.len(),
            ls == split(text@, 10),
            forall|j: int| 0 <= j < lines@.len() ==> (#[trigger] lines@[j])@ == ls[j],
            catalog.wf(),
            parse_lines(ls, i as int) == Ok::<Seq<(Seq<u8>, Event)>, (int, ParseErrorKind)>(
                catalog@,
            ),
        decreases lines@.len() - i,
    {
        let l = trim_bytes(lines[i].as_slice());
        assert(lines@[i as int]@ == ls[i as int]);
        match parse_entry(l.as_slice()) {
            None => {},
            Some(Ok((summary, event))) => {
                proof {
                    lemma_parsed_event_wf(l@);
                }
                catalog.insert(summary, event);
            },
            Some(Err(kind)) => {
                proof {
                    lemma_parse_lines_err(ls, i + 1, ls.len() as int);
                }
                return Err(CatalogError { line: i, content: l, kind });
            },
        }
        i = i + 1;
    }
    Ok(catalog)
}

/// What a line yields has a non-empty summary and a well-formed event.
pub proof fn lemma_parsed_event_wf(l: Seq<u8>)
    ensures
        parse_trimmed(l) matches Some(Ok((s, e))) ==> s.len() > 0 && e.wf(),
{
    lemma_last_delim_bounds(l, l.len() - 1);
}

} // verus!
