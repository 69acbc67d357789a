//! The iCalendar document of every catalog event over a twenty-year window.
use crate::catalog::{Catalog, catalog_wf};
use crate::date::{Date, MAX_YEAR, MIN_YEAR};
use crate::event::{Event, lemma_resolution_unique, resolved};
use crate::uid::{hash_event, uid_of};
use vstd::prelude::*;
use vstd::string::StringSliceAdditionalSpecFns;

verus! {

/// A moment in UTC, to the second.
#[derive(Clone, Copy, Debug, PartialEq, Eq, Structural)]
pub struct Timestamp {
    pub year: i32,
    pub month: u32,
    pub day: u32,
    pub hour: u32,
    pub minute: u32,
    pub second: u32,
}

impl Timestamp {
    pub open spec fn wf(self) -> bool {
        &&& 0 <= self.year <= 9999
        &&& 1 <= self.month <= 12
        &&& 1 <= self.day <= 31
        &&& self.hour < 24
        &&& self.minute < 60
        &&& self.second < 60
    }
}

/// The last `width` decimal digits of `n`, as ASCII, most significant first.
pub open spec fn digits(n: int, width: nat) -> Seq<u8>
    decreases width,
{
    if width == 0 {
        seq![]
    } else {
        digits(n / 10, (width - 1) as nat).push((48 + n % 10) as u8)
    }
}

/// A date as `YYYYMMDD`.
pub open spec fn date_text(d: Date) -> Seq<u8> {
    digits(d.year as int, 4) + digits(d.month as int, 2) + digits(d.day as int, 2)
}

/// A moment as `YYYYMMDDTHHMMSSZ`.
pub open spec fn stamp_text(t: Timestamp) -> Seq<u8> {
    digits(t.year as int, 4) + digits(t.month as int, 2) + digits(t.day as int, 2) + seq![84u8]
        + digits(t.hour as int, 2) + digits(t.minute as int, 2) + digits(t.second as int, 2)
        + seq![90u8]
}

/// The bytes of a text constant.
pub open spec fn text(s: &str) -> Seq<u8> {
    s.spec_bytes()
}

/// A line of the document: its content and a line feed.
pub open spec fn line(content: Seq<u8>) -> Seq<u8> {
    content.push(10u8)
}

pub open spec fn header() -> Seq<u8> {
    line(text("BEGIN:VCALENDAR")) + line(text("PRODID:-//illicitonion//Annual events calendar//EN"))
        + line(text("VERSION:2.0"))
}

pub open spec fn footer() -> Seq<u8> {
    line(text("END:VCALENDAR"))
}

/// One VEVENT block.
pub open spec fn event_block(summary: Seq<u8>, date: Date, uid: Seq<u8>, stamp: Seq<u8>) -> Seq<
    u8,
> {
    line(text("BEGIN:VEVENT")) + line(text("SUMMARY:") + summary) + line(
        text("DTSTART:") + date_text(date),
    ) + line(text("UID:") + uid) + line(text("DTSTAMP:") + stamp) + line(text("CREATED:") + stamp)
        + line(text("LAST-MODIFIED:") + stamp) + line(text("SEQUENCE:0")) + line(
        text("END:VEVENT"),
    )
}

/// The occurrences, as (year, catalog index), of `n` entries over `years` years from
/// `first`: years ascending, and within a year the catalog in order.
pub open spec fn occurrences(n: nat, first: int, years: nat) -> Seq<(int, int)>
    decreases years,
{
    if years == 0 {
        seq![]
    } else {
        occurrences(n, first, (years - 1) as nat) + year_row(first + years - 1, n)
    }
}

/// The occurrences of the first `j` catalog entries in year `y`.
pub open spec fn year_row(y: int, j: nat) -> Seq<(int, int)> {
    Seq::new(j, |i: int| (y, i))
}

/// Position of the occurrence of entry `j` in year `y` among `occurrences(n, first, _)`.
pub open spec fn occurrence_index(n: nat, first: int, y: int, j: int) -> int {
    (y - first) * n + j
}

/// The VEVENT block of an occurrence.
pub open spec fn occurrence_block(cat: Seq<(Seq<u8>, Event)>, stamp: Seq<u8>, o: (int, int)) -> Seq<
    u8,
> {
    let (summary, e) = cat[o.1];
    event_block(summary, resolved(e, o.0), uid_of(o.0, summary), stamp)
}

/// The VEVENT blocks of `occs`, in order.
pub open spec fn blocks(cat: Seq<(Seq<u8>, Event)>, stamp: Seq<u8>, occs: Seq<(int, int)>) -> Seq<
    u8,
>
    decreases occs.len(),
{
    if occs.len() == 0 {
        seq![]
    } else {
        blocks(cat, stamp, occs.drop_last()) + occurrence_block(cat, stamp, occs.last())
    }
}

/// The document for `cat` emitted in `current_year` at the moment written `stamp`.
pub open spec fn document(cat: Seq<(Seq<u8>, Event)>, current_year: int, stamp: Seq<u8>) -> Seq<
    u8,
> {
    header() + blocks(cat, stamp, occurrences(cat.len(), current_year - 10, 20)) + footer()
}

/// The document covers twenty years from `current_year - 10` on, each with every entry
/// of the catalog once, in order: `20 * n` VEVENT blocks in all.
pub proof fn lemma_occurrence_window(n: nat, current_year: int)
    ensures
        occurrences(n, current_year - 10, 20).len() == 20 * n,
        forall|k: int|
            0 <= k < 20 * n ==> current_year - 10 <= (#[trigger] occurrences(
                n,
                current_year - 10,
                20,
            )[k]).0 < current_year + 10,
        forall|y: int, j: int|
            current_year - 10 <= y < current_year + 10 && 0 <= j < n ==> occurrences(
                n,
                current_year - 10,
                20,
            )[#[trigger] occurrence_index(n, current_year - 10, y, j)] == (y, j),
{
    lemma_occurrences_shape(n, current_year - 10, 20);
}

proof fn lemma_occurrences_shape(n: nat, first: int, years: nat)
    ensures
        occurrences(n, first, years).len() == years * n,
        forall|k: int|
            0 <= k < years * n ==> first <= (#[trigger] occurrences(n, first, years)[k]).0 < first
                + years,
        forall|y: int, j: int|
            first <= y < first + years && 0 <= j < n ==> occurrences(n, first, years)[
                #[trigger] occurrence_index(n, first, y, j)] == (y, j),
    decreases years,
{
    if years == 0 {
        assert(years * n == 0);
    } else {
        let prev = (years - 1) as nat;
        lemma_occurrences_shape(n, first, prev);
        assert(years * n == prev * n + n) by (nonlinear_arith)
            requires
                years == prev + 1,
        ;
        let s = occurrences(n, first, years);
        assert(s == occurrences(n, first, prev) + year_row(first + years - 1, n));
        assert(s.len() == years * n);
        assert forall|k: int| 0 <= k < years * n implies first <= (#[trigger] s[k]).0 < first
            + years by {
            if k < prev * n {
                assert(s[k] == occurrences(n, first, prev)[k]);
            }
        }
        assert forall|y: int, j: int| first <= y < first + years && 0 <= j < n implies s[
            #[trigger] occurrence_index(n, first, y, j)] == (y, j) by {
            if y < first + prev {
                assert((y - first) * n + j < prev * n) by (nonlinear_arith)
                    requires
                        y - first <= prev - 1,
                        0 <= j < n,
                ;
                assert(0 <= (y - first) * n + j) by (nonlinear_arith)
                    requires
                        y - first >= 0,
                        0 <= j,
                ;
            } else {
                assert((y - first) * n == prev * n);
            }
        }
    }
}

/// Appends the last `width` decimal digits of `n`.
fn push_digits(out: &mut Vec<u8>, n: u32, width: usize)
    requires
        width <= 4,
    ensures
        final(out)@ == old(out)@ + digits(n as int, width as nat),
    decreases width,
{
    if width > 0 {
        push_digits(out, n / 10, width - 1);
        out.push((48 + n % 10) as u8);
    } else {
        assert(old(out)@ + digits(n as int, 0) =~= old(out)@);
    }
    assert(final(out)@ =~= old(out)@ + digits(n as int, width as nat));
}

/// Appends the bytes of `s`.
fn push_text(out: &mut Vec<u8>, s: &[u8])
    ensures
        final(out)@ == old(out)@ + s@,
{
    let ghost start = out@;
    let mut i: usize = 0;
    while i < s.len()
        invariant
            i <= s@.len(),
            out@ =~= start + s@.take(i as int),
        decreases s@.len() - i,
    {
        out.push(s[i]);
        i = i + 1;
        assert(out@ =~= start + s@.take(i as int));
    }
    assert(s@.take(i as int) =~= s@);
}

/// Appends a line made of `label` and `value`.
fn push_line(out: &mut Vec<u8>, label: &str, value: &[u8])
    ensures
        final(out)@ == old(out)@ + line(text(label) + value@),
{
    push_text(out, label.as_bytes());
    push_text(out, value);
    out.push(10u8);
    assert(final(out)@ =~= old(out)@ + line(text(label) + value@));
}

/// The date as `YYYYMMDD`.
pub fn format_date(d: &Date) -> (r: Vec<u8>)
    requires
        d.year >= 0,
    ensures
        r@ == date_text(*d),
{
    let mut out: Vec<u8> = Vec::new();
    push_digits(&mut out, d.year as u32, 4);
    push_digits(&mut out, d.month, 2);
    push_digits(&mut out, d.day, 2);
    assert(out@ =~= date_text(*d));
    out
}

/// The moment as `YYYYMMDDTHHMMSSZ`.
pub fn format_stamp(t: &Timestamp) -> (r: Vec<u8>)
    requires
        t.wf(),
    ensures
        r@ == stamp_text(*t),
{
    let mut out: Vec<u8> = Vec::new();
    push_digits(&mut out, t.year as u32, 4);
    push_digits(&mut out, t.month, 2);
    push_digits(&mut out, t.day, 2);
    out.push(84u8);
    push_digits(&mut out, t.hour, 2);
    push_digits(&mut out, t.minute, 2);
    push_digits(&mut out, t.second, 2);
    out.push(90u8);
    assert(out@ =~= stamp_text(*t));
    out
}

/// Appends a line that holds `label` alone.
fn push_label(out: &mut Vec<u8>, label: &str)
    ensures
        final(out)@ == old(out)@ + line(text(label)),
{
    push_text(out, label.as_bytes());
    out.push(10u8);
}

/// Appends the VEVENT block of `summary` falling on `date`.
fn push_event(out: &mut Vec<u8>, summary: &[u8], date: &Date, uid: &[u8], stamp: &[u8])
    requires
        date.year >= 0,
    ensures
        final(out)@ == old(out)@ + event_block(summary@, *date, uid@, stamp@),
{
    let dtstart = format_date(date);
    push_label(out, "BEGIN:VEVENT");
    push_line(out, "SUMMARY:", summary);
    push_line(out, "DTSTART:", dtstart.as_slice());
    push_line(out, "UID:", uid);
    push_line(out, "DTSTAMP:", stamp);
    push_line(out, "CREATED:", stamp);
    push_line(out, "LAST-MODIFIED:", stamp);
    push_label(out, "SEQUENCE:0");
    push_label(out, "END:VEVENT");
    assert(final(out)@ =~= old(out)@ + event_block(summary@, *date, uid@, stamp@));
}

/// The iCalendar document of every catalog event in each year from
/// `current_year - 10` up to, not including, `current_year + 10`, stamped with `now`.
pub fn make_calendar(catalog: &Catalog, current_year: i32, now: &Timestamp) -> (r: Vec<u8>)
    requires
        catalog.wf(),
        MIN_YEAR + 10 <= current_year <= MAX_YEAR - 9,
        now.wf(),
    ensures
        r@ == document(catalog@, current_year as int, stamp_text(*now)),
{
    let stamp = format_stamp(now);
    let mut out: Vec<u8> = Vec::new();
    push_label(&mut out, "BEGIN:VCALENDAR");
    push_label(&mut out, "PRODID:-//illicitonion//Annual events calendar//EN");
    push_label(&mut out, "VERSION:2.0");
    let ghost cat = catalog@;
    let n = catalog.entries.len();
    let first = current_year - 10;
    assert(occurrences(n as nat, first as int, 0) =~= seq![]);
    assert(out@ =~= header() + blocks(cat, stamp@, occurrences(n as nat, first as int, 0)));
    let mut year = first;
    while year < current_year + 10
        invariant
            first == current_year - 10,
            first <= year <= current_year + 10,
            MIN_YEAR + 10 <= current_year <= MAX_YEAR - 9,
            cat == catalog@,
            catalog.wf(),
            n == cat.len(),
            out@ == header() + blocks(
                cat,
                stamp@,
                occurrences(n as nat, first as int, (year - first) as nat),
            ),
        decreases current_year + 10 - year,
    {
        let ghost done = occurrences(n as nat, first as int, (year - first) as nat);
        let mut j: usize = 0;
        assert(done + year_row(year as int, 0) =~= done);
        while j < n
            invariant
                j <= n,
                first <= year < current_year + 10,
                MIN_YEAR <= year <= MAX_YEAR,
                cat == catalog@,
                catalog.wf(),
                n == cat.len(),
                out@ == header() + blocks(cat, stamp@, done + year_row(year as int, j as nat)),
            decreases n - j,
        {
            let entry = &catalog.entries[j];
            assert(cat[j as int] == (entry.summary@, entry.event));
            let date = entry.event.to_date(year).unwrap();
            proof {
                lemma_resolution_unique(entry.event, year as int, date);
            }
            let uid = hash_event(year, entry.summary.as_slice());
            push_event(&mut out, entry.summary.as_slice(), &date, uid.as_slice(), stamp.as_slice());
            proof {
                let occs = done + year_row(year as int, (j + 1) as nat);
                assert(occs.drop_last() =~= done + year_row(year as int, j as nat));
                assert(occs.last() == (year as int, j as int));
                assert(out@ =~= header() + blocks(cat, stamp@, occs));
            }
            j = j + 1;
        }
        assert(occurrences(n as nat, first as int, (year + 1 - first) as nat) =~= done + year_row(
            year as int,
            n as nat,
        ));
        year = year + 1;
    }
    push_label(&mut out, "END:VCALENDAR");
    assert(out@ =~= document(cat, current_year as int, stamp_text(*now)));
    out
}

} // verus!
