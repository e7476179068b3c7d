//! Calendar dates of the proleptic Gregorian calendar, as year, month and day.
use vstd::prelude::*;
use chrono::Datelike;

verus! {

/// A calendar date.
#[derive(Debug, Clone, Copy, PartialEq, Eq, Structural)]
pub struct CalendarDate {
    pub year: i32,
    pub month: u32,
    pub day: u32,
}

/// Leap years of the Gregorian calendar.
pub open spec fn is_leap_year(y: int) -> bool {
    (y % 4 == 0 && y % 100 != 0) || y % 400 == 0
}

/// The number of days of month `m` of year `y`.
pub open spec fn days_in_month(y: int, m: int) -> int {
    if m == 2 {
        if is_leap_year(y) { 29 } else { 28 }
    } else if m == 4 || m == 6 || m == 9 || m == 11 {
        30
    } else {
        31
    }
}

/// `(year, month, day)` names a day of the calendar.
pub open spec fn valid_ymd(year: int, month: int, day: int) -> bool {
    1 <= month <= 12 && 1 <= day <= days_in_month(year, month)
}

/// The years this library's dates span: those of four decimal digits.
pub open spec fn four_digit_year(y: int) -> bool {
    0 <= y <= 9999
}

/// The day after `d`.
pub open spec fn next_day(d: CalendarDate) -> CalendarDate {
    if (d.day as int) < days_in_month(d.year as int, d.month as int) {
        CalendarDate { year: d.year, month: d.month, day: (d.day + 1) as u32 }
    } else if d.month < 12 {
        CalendarDate { year: d.year, month: (d.month + 1) as u32, day: 1 }
    } else {
        CalendarDate { year: (d.year + 1) as i32, month: 1, day: 1 }
    }
}

/// `a` comes before `b`.
pub open spec fn precedes(a: CalendarDate, b: CalendarDate) -> bool {
    a.year < b.year || (a.year == b.year && (a.month < b.month || (a.month == b.month && a.day < b.day)))
}

/// The date as the number `YYYYMMDD`; its order is the order of dates.
pub open spec fn day_key(d: CalendarDate) -> int {
    d.year * 10000 + d.month * 100 + d.day
}

/// Relies on `chrono::NaiveDate::from_ymd_opt`, which accepts exactly the
/// days of the proleptic Gregorian calendar within its year range, a range
/// that holds every four-digit year.
#[verifier::external_body]
fn chrono_accepts(year: i32, month: u32, day: u32) -> (r: bool)
    requires
        four_digit_year(year as int),
    ensures
        r == valid_ymd(year as int, month as int, day as int),
{
    chrono::NaiveDate::from_ymd_opt(year, month, day).is_some()
}

/// Relies on `chrono::NaiveDate::succ_opt`, the following calendar day, which
/// exists for every four-digit year.
#[verifier::external_body]
fn chrono_succ(d: CalendarDate) -> (r: CalendarDate)
    requires
        valid_ymd(d.year as int, d.month as int, d.day as int),
        four_digit_year(d.year as int),
    ensures
        r == next_day(d),
{
    let n = chrono::NaiveDate::from_ymd_opt(d.year, d.month, d.day).unwrap();
    let s = n.succ_opt().unwrap();
    CalendarDate { year: s.year(), month: s.month(), day: s.day() }
}

impl CalendarDate {
    /// The date `year-month-day`, if it is a day of the calendar.
    pub fn from_ymd_opt(year: i32, month: u32, day: u32) -> (r: Option<CalendarDate>)
        requires
            four_digit_year(year as int),
        ensures
            match r {
                Some(d) => valid_ymd(year as int, month as int, day as int) && d == (CalendarDate { year, month, day }),
                None => !valid_ymd(year as int, month as int, day as int),
            },
    {
        if chrono_accepts(year, month, day) {
            Some(CalendarDate { year, month, day })
        } else {
            None
        }
    }

    /// Whether `self` is a day of the calendar in a four-digit year.
    pub open spec fn wf(&self) -> bool {
        valid_ymd(self.year as int, self.month as int, self.day as int) && four_digit_year(self.year as int)
    }

    /// Whether `self` comes before `other`.
    pub fn is_before(&self, other: &CalendarDate) -> (b: bool)
        ensures
            b == precedes(*self, *other),
    {
        self.year < other.year || (self.year == other.year && (self.month < other.month || (self.month
            == other.month && self.day < other.day)))
    }
}

/// The key of the following day is greater.
proof fn lemma_next_day_key(d: CalendarDate)
    requires
        d.wf(),
    ensures
        day_key(d) < day_key(next_day(d)),
{
}

/// No day of the calendar lies strictly between a date and the next.
proof fn lemma_no_date_between(d: CalendarDate, e: CalendarDate)
    requires
        d.wf(),
        e.wf(),
        day_key(d) < day_key(e),
    ensures
        day_key(next_day(d)) <= day_key(e),
{
}

/// Every date from `start` to `end`, both included, in order.
pub fn generate_date_range(start: CalendarDate, end: CalendarDate) -> (r: Vec<CalendarDate>)
    requires
        start.wf(),
        end.wf(),
    ensures
        day_key(end) < day_key(start) ==> r@.len() == 0,
        day_key(start) <= day_key(end) ==> r@.len() > 0 && r@[0] == start && day_key(r@.last()) == day_key(end),
        forall|i: int| 0 <= i < r@.len() ==> (#[trigger] r@[i]).wf() && day_key(r@[i]) <= day_key(end),
        forall|i: int| 0 <= i < r@.len() - 1 ==> #[trigger] r@[i + 1] == next_day(r@[i]),
{
    let mut dates: Vec<CalendarDate> = Vec::new();
    let mut current = start;
    while !end.is_before(&current)
        invariant_except_break
            current.wf(),
            dates@.len() == 0 ==> current == start,
            dates@.len() > 0 ==> current == next_day(dates@.last()),
        invariant
            end.wf(),
            dates@.len() > 0 ==> dates@[0] == start,
            forall|i: int| 0 <= i < dates@.len() ==> (#[trigger] dates@[i]).wf() && day_key(dates@[i]) <= day_key(end),
            forall|i: int| 0 <= i < dates@.len() - 1 ==> #[trigger] dates@[i + 1] == next_day(dates@[i]),
        ensures
            day_key(start) <= day_key(end) ==> dates@.len() > 0 && day_key(dates@.last()) == day_key(end),
            day_key(end) < day_key(start) ==> dates@.len() == 0,
        decreases if day_key(current) <= day_key(end) { day_key(end) - day_key(current) + 1 } else { 0 },
    {
        dates.push(current);
        if current.year == 9999 && current.month == 12 && current.day == 31 {
            break;
        }
        proof {
            lemma_next_day_key(current);
            if day_key(current) < day_key(end) {
                lemma_no_date_between(current, end);
            }
        }
        current = chrono_succ(current);
    }
    dates
}

} // verus!
