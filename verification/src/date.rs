//! Calendar dates: reading them from a cell and writing them in ISO form.
//!
//! The text is read by `chrono`; the library keeps the year, month and day
//! it found.

use vstd::prelude::*;
use chrono::{Datelike, NaiveDate};
use crate::digits::{digits_of, padded_digits, push_digits, push_padded};
use crate::text::{chars_of, is_null_marker, null_marker, string_of, trim_chars, trimmed};

verus! {

/// `chrono::ParseError`: the error that `chrono` gives for a text it cannot
/// read as a date. Nothing is known of what it holds.
#[verifier::external_type_specification]
#[verifier::external_body]
pub struct ExParseError(chrono::ParseError);

/// A day of the proleptic Gregorian calendar.
#[derive(Clone, Copy, Debug, PartialEq, Eq, Structural)]
pub struct CalendarDate {
    pub year: i32,
    pub month: u32,
    pub day: u32,
}

impl CalendarDate {
    /// Whether month and day are in their ranges: 1 to 12 and 1 to 31.
    pub open spec fn wf(self) -> bool {
        1 <= self.month <= 12 && 1 <= self.day <= 31
    }

    /// A number that grows with the date: later dates have greater
    /// ordinals, equal dates equal ones.
    pub open spec fn spec_ordinal(self) -> int {
        (self.year * 16 + self.month) * 32 + self.day
    }

    /// Whether `self` is an earlier day than `other`.
    pub open spec fn earlier_than(self, other: CalendarDate) -> bool {
        self.year < other.year || (self.year == other.year && (self.month < other.month || (
        self.month == other.month && self.day < other.day)))
    }

    /// The date in ISO form: year, month and day, joined by hyphens.
    pub open spec fn iso_text(self) -> Seq<char> {
        year_text(self.year as int) + seq!['-'] + padded_digits(self.month as nat, 2) + seq!['-']
            + padded_digits(self.day as nat, 2)
    }
}

/// The year in ISO form: four digits from 0 to 9999; outside that range a
/// sign and at least four digits.
pub open spec fn year_text(year: int) -> Seq<char> {
    if 0 <= year <= 9999 {
        padded_digits(year as nat, 4)
    } else {
        let sign = if year < 0 { seq!['-'] } else { seq!['+'] };
        let magnitude = (if year < 0 { -year } else { year }) as nat;
        if magnitude <= 9999 {
            sign + padded_digits(magnitude, 4)
        } else {
            sign + digits_of(magnitude)
        }
    }
}

/// What a cell that should hold a date was found to hold.
#[derive(Clone, Copy, Debug)]
pub enum ParsedDate {
    /// A date.
    Date(CalendarDate),
    /// Nothing: the cell is empty or holds the null marker.
    Absent,
    /// Something that is neither missing nor a date, with the error that
    /// reading it under the day-first pattern gave.
    Malformed(chrono::ParseError),
}

/// What a date cell holds, without the cause of a failure.
pub enum DateReading {
    Date(CalendarDate),
    Absent,
    Malformed,
}

impl View for ParsedDate {
    type V = DateReading;

    open spec fn view(&self) -> DateReading {
        match *self {
            ParsedDate::Date(d) => DateReading::Date(d),
            ParsedDate::Absent => DateReading::Absent,
            ParsedDate::Malformed(_) => DateReading::Malformed,
        }
    }
}

/// The date of the given year, month and day.
pub open spec fn date_of(parts: (int, int, int)) -> CalendarDate {
    CalendarDate { year: parts.0 as i32, month: parts.1 as u32, day: parts.2 as u32 }
}

/// What the cell `s` holds: nothing where the trimmed text is empty or the
/// null marker; otherwise the date read under the day-first pattern;
/// otherwise, where the fallback is on, the date read under the
/// month-first pattern; otherwise malformed.
pub open spec fn date_of_text(s: Seq<char>, month_first_fallback: bool) -> DateReading {
    let t = trimmed(s);
    if t.len() == 0 || t == null_marker() {
        DateReading::Absent
    } else {
        match chrono_date(t, day_first_pattern()) {
            Some(parts) => DateReading::Date(date_of(parts)),
            None => if month_first_fallback {
                match chrono_date(t, month_first_pattern()) {
                    Some(parts) => DateReading::Date(date_of(parts)),
                    None => DateReading::Malformed,
                }
            } else {
                DateReading::Malformed
            },
        }
    }
}

/// The pattern for day, month and year, in that order, with slashes.
pub open spec fn day_first_pattern() -> Seq<char> {
    "%d/%m/%Y"@
}

/// The pattern for month, day and year, in that order, with slashes.
pub open spec fn month_first_pattern() -> Seq<char> {
    "%m/%d/%Y"@
}

/// The year, month and day that `chrono::NaiveDate::parse_from_str` reads
/// from `text` under `pattern`, or `None` where it reports an error.
pub uninterp spec fn chrono_date(text: Seq<char>, pattern: Seq<char>) -> Option<(int, int, int)>;

/// Calls `chrono::NaiveDate::parse_from_str` and takes year, month and day
/// from the date it returns. Trusted: the result is what `chrono_date`
/// names, and a date that `chrono` returns has its month from 1 to 12 and
/// its day from 1 to 31.
#[verifier::external_body]
fn read_date(text: &str, pattern: &str) -> (r: Result<CalendarDate, chrono::ParseError>)
    ensures
        match r {
            Ok(d) => chrono_date(text@, pattern@) == Some(
                (d.year as int, d.month as int, d.day as int),
            ) && d.wf(),
            Err(_) => chrono_date(text@, pattern@) is None,
        },
{
    match NaiveDate::parse_from_str(text, pattern) {
        Ok(d) => Ok(CalendarDate { year: d.year(), month: d.month(), day: d.day() }),
        Err(e) => Err(e),
    }
}

/// What a cell holds that is not missing, given what reading it under
/// the day-first pattern gave and, where the month-first pattern was tried
/// as well, what that gave: the first date that was read, or else
/// malformed with the error of the day-first reading.
pub open spec fn settled(
    day_first: Result<CalendarDate, chrono::ParseError>,
    month_first: Option<Result<CalendarDate, chrono::ParseError>>,
) -> ParsedDate {
    match day_first {
        Ok(d) => ParsedDate::Date(d),
        Err(e) => match month_first {
            Some(Ok(d)) => ParsedDate::Date(d),
            _ => ParsedDate::Malformed(e),
        },
    }
}

/// Decides what a cell holds that is not missing, from the readings under
/// the two patterns.
pub fn settle_date(
    day_first: Result<CalendarDate, chrono::ParseError>,
    month_first: Option<Result<CalendarDate, chrono::ParseError>>,
) -> (r: ParsedDate)
    ensures
        r == settled(day_first, month_first),
{
    match day_first {
        Ok(d) => ParsedDate::Date(d),
        Err(e) => match month_first {
            Some(Ok(d)) => ParsedDate::Date(d),
            _ => ParsedDate::Malformed(e),
        },
    }
}

/// Reads a date from a cell. The month-first pattern is tried only where
/// `month_first_fallback` is set, and only after the day-first pattern has
/// failed.
pub fn parse_date(text: &str, month_first_fallback: bool) -> (r: ParsedDate)
    ensures
        r@ == date_of_text(text@, month_first_fallback),
        r matches ParsedDate::Date(d) ==> d.wf(),
{
    let t = trim_chars(&chars_of(text));
    if t.len() == 0 || is_null_marker(&t) {
        return ParsedDate::Absent;
    }
    let s = string_of(&t);
    let day_first = read_date(s.as_str(), "%d/%m/%Y");
    let month_first = if month_first_fallback && day_first.is_err() {
        Some(read_date(s.as_str(), "%m/%d/%Y"))
    } else {
        None
    };
    settle_date(day_first, month_first)
}

/// Ordinals order dates as the calendar does.
pub proof fn lemma_ordinal_order(a: CalendarDate, b: CalendarDate)
    requires
        a.wf(),
        b.wf(),
    ensures
        a.spec_ordinal() < b.spec_ordinal() <==> a.earlier_than(b),
        a.spec_ordinal() == b.spec_ordinal() <==> a == b,
{
}

impl CalendarDate {
    /// The date's ordinal.
    pub fn ordinal(&self) -> (r: i64)
        ensures
            r == self.spec_ordinal(),
    {
        let y: i64 = self.year as i64;
        let m: i64 = self.month as i64;
        let d: i64 = self.day as i64;
        (y * 16 + m) * 32 + d
    }

    /// The characters of the date in ISO form.
    pub fn to_iso_chars(&self) -> (out: Vec<char>)
        ensures
            out@ == self.iso_text(),
    {
        let mut out: Vec<char> = Vec::new();
        if 0 <= self.year && self.year <= 9999 {
            push_padded(self.year as u128, 4, &mut out);
        } else {
            let magnitude: u128 = if self.year < 0 {
                out.push('-');
                (-(self.year as i64)) as u128
            } else {
                out.push('+');
                self.year as u128
            };
            if magnitude <= 9999 {
                push_padded(magnitude, 4, &mut out);
            } else {
                push_digits(magnitude, &mut out);
            }
        }
        assert(out@ == year_text(self.year as int));
        out.push('-');
        push_padded(self.month as u128, 2, &mut out);
        out.push('-');
        push_padded(self.day as u128, 2, &mut out);
        out
    }

    /// The date in ISO form.
    pub fn to_iso(&self) -> (s: String)
        ensures
            s@ == self.iso_text(),
    {
        string_of(&self.to_iso_chars())
    }
}

} // verus!
