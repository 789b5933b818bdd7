//! Calendar values: minute-precision local timestamps of comments, and UTC
//! instants of remote issues. Reading and printing them is done by `chrono`.
use vstd::prelude::*;
use chrono::{Datelike, Timelike};
use crate::text::{is_ascii_digit, is_nd, decimal, is_ws};

verus! {

/// A calendar date and time of day, to the minute (what comment headers carry).
#[derive(Clone, Copy, Debug, PartialEq, Eq, Structural)]
pub struct Timestamp {
    pub year: i32,
    pub month: u32,
    pub day: u32,
    pub hour: u32,
    pub minute: u32,
}

/// Smallest and largest year of a calendar date.
pub open spec fn min_year() -> int {
    -262143
}

pub open spec fn max_year() -> int {
    262142
}

/// Gregorian leap years.
pub open spec fn is_leap(y: int) -> bool {
    y % 4 == 0 && (y % 100 != 0 || y % 400 == 0)
}

pub open spec fn days_in_month(y: int, m: int) -> int {
    if m == 2 {
        if is_leap(y) {
            29
        } else {
            28
        }
    } else if m == 4 || m == 6 || m == 9 || m == 11 {
        30
    } else {
        31
    }
}

/// Year, month, day, hour and minute name a real minute of the calendar.
pub open spec fn valid_minute(y: int, mo: int, d: int, h: int, mi: int) -> bool {
    &&& min_year() <= y <= max_year()
    &&& 1 <= mo <= 12
    &&& 1 <= d <= days_in_month(y, mo)
    &&& 0 <= h < 24
    &&& 0 <= mi < 60
}

impl Timestamp {
    pub open spec fn wf(&self) -> bool {
        valid_minute(self.year as int, self.month as int, self.day as int, self.hour as int, self.minute as int)
    }

    /// The timestamp with these parts, if they name a real minute.
    pub fn new(year: i32, month: u32, day: u32, hour: u32, minute: u32) -> (r: Option<Timestamp>)
        ensures
            r matches Some(t) ==> t == (Timestamp { year, month, day, hour, minute }),
            r is Some <==> valid_minute(year as int, month as int, day as int, hour as int, minute as int),
    {
        if year < -262143 || year > 262142 || month < 1 || month > 12 || day < 1 || hour >= 24
            || minute >= 60 {
            return None;
        }
        let leap = year % 4 == 0 && (year % 100 != 0 || year % 400 == 0);
        let dim: u32 = if month == 2 {
            if leap {
                29
            } else {
                28
            }
        } else if month == 4 || month == 6 || month == 9 || month == 11 {
            30
        } else {
            31
        };
        if day > dim {
            return None;
        }
        Some(Timestamp { year, month, day, hour, minute })
    }
}

// ---------------------------------------------------------------------------
// Text form `%Y-%m-%d %H:%M`
// ---------------------------------------------------------------------------
/// `n` in decimal, padded with zeros on the left to at least `w` characters.
pub open spec fn pad_decimal(n: nat, w: nat) -> Seq<char> {
    let d = decimal(n);
    if d.len() >= w {
        d
    } else {
        Seq::new((w - d.len()) as nat, |i: int| '0') + d
    }
}

/// The year as `%Y` prints it: four digits within 0..=9999, otherwise a sign
/// and at least four digits.
pub open spec fn year_text(y: int) -> Seq<char> {
    if 0 <= y <= 9999 {
        pad_decimal(y as nat, 4)
    } else if y < 0 {
        seq!['-'] + pad_decimal((-y) as nat, 4)
    } else {
        seq!['+'] + pad_decimal(y as nat, 4)
    }
}

/// `YYYY-MM-DD HH:MM`, the form of a timestamp in a comment header.
pub open spec fn minute_text(t: Timestamp) -> Seq<char> {
    year_text(t.year as int) + seq!['-'] + pad_decimal(t.month as nat, 2) + seq!['-'] + pad_decimal(
        t.day as nat,
        2,
    ) + seq![' '] + pad_decimal(t.hour as nat, 2) + seq![':'] + pad_decimal(t.minute as nat, 2)
}

pub open spec fn digit_at(s: Seq<char>, i: int) -> int {
    s[i] as int - 48
}

/// Value of the two ASCII digits at `i`.
pub open spec fn two_digits(s: Seq<char>, i: int) -> int {
    digit_at(s, i) * 10 + digit_at(s, i + 1)
}

/// Positions of digits in `YYYY-MM-DD HH:MM`.
pub open spec fn is_digit_slot(i: int) -> bool {
    0 <= i < 16 && i != 4 && i != 7 && i != 10 && i != 13
}

/// The shape `dddd-dd-dd dd:dd` where each `d` is a decimal digit of any script.
pub open spec fn date_time_shape(s: Seq<char>) -> bool {
    &&& s.len() == 16
    &&& s[4] == '-' && s[7] == '-' && s[10] == ' ' && s[13] == ':'
    &&& forall|i: int| is_digit_slot(i) ==> is_nd(#[trigger] s[i])
}

/// What reading `dddd-dd-dd dd:dd` as `%Y-%m-%d %H:%M` gives: the timestamp
/// when all digits are ASCII and name a real minute.
pub open spec fn timestamp_from_text(s: Seq<char>) -> Option<Timestamp> {
    let y = digit_at(s, 0) * 1000 + digit_at(s, 1) * 100 + two_digits(s, 2);
    let mo = two_digits(s, 5);
    let d = two_digits(s, 8);
    let h = two_digits(s, 11);
    let mi = two_digits(s, 14);
    if (forall|i: int| is_digit_slot(i) ==> is_ascii_digit(#[trigger] s[i])) && valid_minute(
        y,
        mo,
        d,
        h,
        mi,
    ) {
        Some(Timestamp { year: y as i32, month: mo as u32, day: d as u32, hour: h as u32, minute: mi as u32 })
    } else {
        None
    }
}

/// `NaiveDateTime::parse_from_str(s, "%Y-%m-%d %H:%M")` on text of the shape
/// `dddd-dd-dd dd:dd`: chrono reads ASCII digits only and checks the calendar,
/// so the result is the timestamp exactly when all digits are ASCII and name a
/// real minute.
#[verifier::external_body]
pub(crate) fn parse_minute_text(s: &str) -> (r: Option<Timestamp>)
    requires
        date_time_shape(s@),
    ensures
        r == timestamp_from_text(s@),
{
    chrono::NaiveDateTime::parse_from_str(s, "%Y-%m-%d %H:%M").ok().map(
        |d| Timestamp { year: d.year(), month: d.month(), day: d.day(), hour: d.hour(), minute: d.minute() },
    )
}

/// `NaiveDateTime::format("%Y-%m-%d %H:%M")`: four-digit zero-padded year
/// (with a sign outside 0..=9999) and two-digit month, day, hour and minute.
#[verifier::external_body]
pub(crate) fn format_minute_text(t: &Timestamp) -> (r: String)
    requires
        t.wf(),
    ensures
        r@ == minute_text(*t),
{
    let d = chrono::NaiveDate::from_ymd_opt(t.year, t.month, t.day).unwrap().and_hms_opt(
        t.hour,
        t.minute,
        0,
    ).unwrap();
    d.format("%Y-%m-%d %H:%M").to_string()
}

// ---------------------------------------------------------------------------
// UTC instants (remote issues and sync metadata)
// ---------------------------------------------------------------------------
/// An instant in UTC, with the two forms the library shows of it: its RFC 3339
/// text and its calendar minute.
#[derive(Clone, Debug)]
pub struct UtcInstant {
    /// Seconds since 1970-01-01T00:00:00Z.
    pub secs: i64,
    /// Nanoseconds within the second (at least 10^9 during a leap second).
    pub nanos: u32,
    /// `DateTime::to_rfc3339` of the instant.
    pub text: String,
    /// The calendar minute of the instant in UTC.
    pub minute: Timestamp,
}

/// The instant that `DateTime::parse_from_rfc3339` reads from `s`, converted to
/// UTC, as (seconds, nanoseconds); `None` where chrono refuses the text.
pub uninterp spec fn rfc3339_instant(s: Seq<char>) -> Option<(int, int)>;

/// `DateTime::<Utc>::to_rfc3339` of the instant (seconds, nanoseconds).
pub uninterp spec fn utc_rfc3339_text(secs: int, nanos: int) -> Seq<char>;

/// The calendar minute of `DateTime::<Utc>::naive_utc` of the instant.
pub uninterp spec fn utc_calendar_minute(secs: int, nanos: int) -> Timestamp;

impl UtcInstant {
    /// The forms agree with the instant.
    pub open spec fn wf(&self) -> bool {
        &&& self.text@ == utc_rfc3339_text(self.secs as int, self.nanos as int)
        &&& self.minute == utc_calendar_minute(self.secs as int, self.nanos as int)
        &&& self.minute.wf()
        &&& (0 <= self.minute.year <= 9999 ==> rfc3339_instant(self.text@) == Some(
            (self.secs as int, self.nanos as int),
        ))
        &&& self.text@.len() > 0
        &&& forall|i: int| 0 <= i < self.text@.len() ==> !is_ws(#[trigger] self.text@[i])
    }

    /// Same instant.
    pub open spec fn same(&self, other: &UtcInstant) -> bool {
        self.secs == other.secs && self.nanos == other.nanos
    }

    /// A copy of the instant.
    pub fn duplicate(&self) -> (r: UtcInstant)
        ensures
            r.secs == self.secs,
            r.nanos == self.nanos,
            r.text@ == self.text@,
            r.minute == self.minute,
            self.wf() ==> r.wf(),
    {
        UtcInstant { secs: self.secs, nanos: self.nanos, text: self.text.clone(), minute: self.minute }
    }

    pub fn same_instant(&self, other: &UtcInstant) -> (r: bool)
        ensures
            r == self.same(other),
    {
        self.secs == other.secs && self.nanos == other.nanos
    }
}

/// `DateTime::parse_from_rfc3339(s)` converted to UTC. Claims: the result is
/// `Some` exactly when chrono accepts `s`; its seconds and nanoseconds are those
/// of the parsed instant; its text is chrono's `to_rfc3339` of that instant and
/// its minute is chrono's `naive_utc` of it, a real calendar minute. Chrono's
/// source also shows that `to_rfc3339` of an instant whose UTC year lies in
/// 0..=9999 reads back to the same instant, and that it writes digits, `-`,
/// `+`, `T`, `:` and `.` only, so no whitespace; those are the last clauses.
#[verifier::external_body]
pub(crate) fn parse_rfc3339(s: &str) -> (r: Option<UtcInstant>)
    ensures
        r is Some <==> rfc3339_instant(s@) is Some,
        r matches Some(u) ==> {
            &&& rfc3339_instant(s@) == Some((u.secs as int, u.nanos as int))
            &&& u.text@ == utc_rfc3339_text(u.secs as int, u.nanos as int)
            &&& u.minute == utc_calendar_minute(u.secs as int, u.nanos as int)
            &&& u.minute.wf()
            &&& (0 <= u.minute.year <= 9999 ==> rfc3339_instant(u.text@) == Some(
                (u.secs as int, u.nanos as int),
            ))
            &&& u.text@.len() > 0
            &&& forall|i: int| 0 <= i < u.text@.len() ==> !is_ws(#[trigger] u.text@[i])
        },
{
    chrono::DateTime::parse_from_rfc3339(s).ok().map(|d| {
        let u = d.with_timezone(&chrono::Utc);
        let minute = Timestamp { year: u.year(), month: u.month(), day: u.day(), hour: u.hour(), minute: u.minute() };
        UtcInstant { secs: u.timestamp(), nanos: u.timestamp_subsec_nanos(), text: u.to_rfc3339(), minute }
    })
}

} // verus!
