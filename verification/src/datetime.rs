//! TOML's four date and time types, and the scanner that reads them.
//!
//! TOML distinguishes an offset date-time from a local date-time, a local date
//! and a local time. All four are represented by a single [`Datetime`] struct
//! whose optional fields say which of the four it is.

use vstd::prelude::*;

use crate::error::Error;
use crate::grammar::{closes_value, is_value_end};
use crate::text::{
    all_digits, char_digit, digit_val, is_digit, pad_dec, push_char, push_padded, str_chars,
    dec_value, pow10, lemma_dec_value_bound, repeat_char, lemma_pad_dec,
};

verus! {

/// A calendar date: year, month and day.
#[derive(Debug, Clone, Copy, PartialEq, Eq, PartialOrd, Ord, Hash, Structural)]
pub struct Date {
    /// The year, from 0 to 9999.
    pub year: u16,
    /// The month, from 1 to 12.
    pub month: u8,
    /// The day of the month, from 1 to the number of days in that month.
    pub day: u8,
}

/// Whether `year` is a leap year in the proleptic Gregorian calendar.
pub open spec fn leap_year(year: int) -> bool {
    (year % 4 == 0 && year % 100 != 0) || year % 400 == 0
}

/// The number of days in a month, or `None` for a month outside 1 to 12.
pub open spec fn month_days(year: int, month: int) -> Option<int> {
    if month == 1 || month == 3 || month == 5 || month == 7 || month == 8 || month == 10
        || month == 12 {
        Some(31)
    } else if month == 4 || month == 6 || month == 9 || month == 11 {
        Some(30)
    } else if month == 2 {
        if leap_year(year) {
            Some(29)
        } else {
            Some(28)
        }
    } else {
        None
    }
}

/// Whether a year, month and day name a day of the proleptic Gregorian
/// calendar that TOML can write.
pub open spec fn valid_date(year: int, month: int, day: int) -> bool {
    &&& 0 <= year <= 9999
    &&& month_days(year, month) is Some
    &&& 1 <= day <= month_days(year, month)->0
}

impl Date {
    /// Builds a date, returning `None` if it does not exist in the proleptic
    /// Gregorian calendar.
    pub fn new(year: u16, month: u8, day: u8) -> (r: Option<Date>)
        ensures
            r is Some <==> valid_date(year as int, month as int, day as int),
            r matches Some(d) ==> d == (Date { year, month, day }),
    {
        if year > 9999 {
            return None;
        }
        let max = match Date::days_in_month(year, month) {
            Some(max) => max,
            None => return None,
        };
        if day == 0 || day > max {
            return None;
        }
        Some(Date { year, month, day })
    }

    /// Whether `year` is a leap year in the proleptic Gregorian calendar.
    pub fn is_leap_year(year: u16) -> (b: bool)
        ensures
            b == leap_year(year as int),
    {
        (year % 4 == 0 && year % 100 != 0) || year % 400 == 0
    }

    /// The number of days in `month` of `year`, or `None` if `month` is not in
    /// the range 1 to 12.
    pub fn days_in_month(year: u16, month: u8) -> (r: Option<u8>)
        ensures
            r is Some <==> month_days(year as int, month as int) is Some,
            r matches Some(n) ==> n == month_days(year as int, month as int)->0,
    {
        if month == 1 || month == 3 || month == 5 || month == 7 || month == 8 || month == 10
            || month == 12 {
            Some(31)
        } else if month == 4 || month == 6 || month == 9 || month == 11 {
            Some(30)
        } else if month == 2 {
            if Date::is_leap_year(year) {
                Some(29)
            } else {
                Some(28)
            }
        } else {
            None
        }
    }

    /// The date as `YYYY-MM-DD`.
    pub fn to_string(&self) -> (s: String)
        ensures
            s@ == date_text(*self),
    {
        let mut s = String::new();
        self.push_to(&mut s);
        assert(s@ =~= date_text(*self));
        s
    }

    /// Appends the date as `YYYY-MM-DD`.
    pub fn push_to(&self, s: &mut String)
        ensures
            final(s)@ == old(s)@ + date_text(*self),
    {
        push_padded(s, self.year as u64, 4);
        push_char(s, '-');
        push_padded(s, self.month as u64, 2);
        push_char(s, '-');
        push_padded(s, self.day as u64, 2);
        assert(s@ =~= old(s)@ + date_text(*self));
    }
}

/// How a date is written: `YYYY-MM-DD`.
pub open spec fn date_text(d: Date) -> Seq<char> {
    pad_dec(d.year as nat, 4) + seq!['-'] + pad_dec(d.month as nat, 2) + seq!['-'] + pad_dec(
        d.day as nat,
        2,
    )
}

/// A time of day, with nanosecond precision.
#[derive(Debug, Clone, Copy, PartialEq, Eq, PartialOrd, Ord, Hash, Structural)]
pub struct Time {
    /// The hour, from 0 to 23.
    pub hour: u8,
    /// The minute, from 0 to 59.
    pub minute: u8,
    /// The second, from 0 to 60 (60 being a leap second).
    pub second: u8,
    /// The sub-second part, in nanoseconds, from 0 to 999_999_999.
    pub nanosecond: u32,
}

/// Whether the parts of a time are in range; a second of 60 is a leap second.
pub open spec fn valid_time(hour: int, minute: int, second: int, nanosecond: int) -> bool {
    hour <= 23 && minute <= 59 && second <= 60 && nanosecond <= 999_999_999
}

/// Drops trailing `0` characters.
pub open spec fn strip_trailing_zeros(s: Seq<char>) -> Seq<char>
    decreases s.len(),
{
    if s.len() > 0 && s.last() == '0' {
        strip_trailing_zeros(s.drop_last())
    } else {
        s
    }
}

/// How a time is written: `HH:MM:SS`, then a fraction with its trailing zeros
/// dropped if the time has one.
pub open spec fn time_text(t: Time) -> Seq<char> {
    let whole = pad_dec(t.hour as nat, 2) + seq![':'] + pad_dec(t.minute as nat, 2) + seq![':']
        + pad_dec(t.second as nat, 2);
    if t.nanosecond != 0 {
        whole + seq!['.'] + strip_trailing_zeros(pad_dec((t.nanosecond % 1_000_000_000) as nat, 9))
    } else {
        whole
    }
}

impl Time {
    /// Builds a time, returning `None` if any component is out of range.
    pub fn new(hour: u8, minute: u8, second: u8, nanosecond: u32) -> (r: Option<Time>)
        ensures
            r is Some <==> valid_time(hour as int, minute as int, second as int, nanosecond as int),
            r matches Some(t) ==> t == (Time { hour, minute, second, nanosecond }),
    {
        if hour > 23 || minute > 59 || second > 60 || nanosecond > 999_999_999 {
            return None;
        }
        Some(Time { hour, minute, second, nanosecond })
    }

    /// The time as `HH:MM:SS[.fraction]`.
    pub fn to_string(&self) -> (s: String)
        ensures
            s@ == time_text(*self),
    {
        let mut s = String::new();
        self.push_to(&mut s);
        assert(s@ =~= time_text(*self));
        s
    }

    /// Appends the time as `HH:MM:SS[.fraction]`.
    pub fn push_to(&self, s: &mut String)
        ensures
            final(s)@ == old(s)@ + time_text(*self),
    {
        push_padded(s, self.hour as u64, 2);
        push_char(s, ':');
        push_padded(s, self.minute as u64, 2);
        push_char(s, ':');
        push_padded(s, self.second as u64, 2);
        if self.nanosecond != 0 {
            push_fraction(s, self.nanosecond);
        }
        assert(s@ =~= old(s)@ + time_text(*self));
    }
}

/// Appends `.` and the nanoseconds as nine digits with trailing zeros dropped.
fn push_fraction(s: &mut String, nanosecond: u32)
    ensures
        final(s)@ == old(s)@ + seq!['.'] + strip_trailing_zeros(
            pad_dec((nanosecond % 1_000_000_000) as nat, 9),
        ),
{
    push_char(s, '.');
    let mut digits = String::new();
    push_padded(&mut digits, (nanosecond % 1_000_000_000) as u64, 9);
    let cs = str_chars(digits.as_str());
    let mut end = cs.len();
    assert(cs@.subrange(0, cs.len() as int) =~= cs@);
    while end > 0 && cs[end - 1] == '0'
        invariant
            end <= cs.len(),
            strip_trailing_zeros(cs@.subrange(0, end as int)) == strip_trailing_zeros(cs@),
        decreases end,
    {
        assert(cs@.subrange(0, end as int).drop_last() =~= cs@.subrange(0, end - 1));
        end -= 1;
    }
    let mut i: usize = 0;
    let ghost dot = s@;
    while i < end
        invariant
            i <= end <= cs.len(),
            s@ == dot + cs@.subrange(0, i as int),
        decreases end - i,
    {
        push_char(s, cs[i]);
        assert(cs@.subrange(0, i + 1) =~= cs@.subrange(0, i as int).push(cs@[i as int]));
        i += 1;
    }
    assert(strip_trailing_zeros(cs@.subrange(0, end as int)) == cs@.subrange(0, end as int));
    assert(digits@ == Seq::<char>::empty() + pad_dec((nanosecond % 1_000_000_000) as nat, 9));
    assert(cs@ =~= pad_dec((nanosecond % 1_000_000_000) as nat, 9));
}

/// The time zone offset of an offset date-time.
#[derive(Debug, Clone, Copy, PartialEq, Eq, PartialOrd, Ord, Hash, Structural)]
pub enum Offset {
    /// UTC, written `Z`.
    Z,
    /// A fixed offset from UTC, in minutes, from -1439 to 1439.
    Custom {
        /// Minutes east of UTC; negative values are west of it.
        minutes: i16,
    },
}

/// How an offset is written: `Z`, or a sign and `HH:MM`.
pub open spec fn offset_text(o: Offset) -> Seq<char> {
    match o {
        Offset::Z => seq!['Z'],
        Offset::Custom { minutes } => {
            let m: int = if minutes < 0 { -minutes } else { minutes as int };
            seq![if minutes < 0 { '-' } else { '+' }] + pad_dec((m / 60) as nat, 2) + seq![':']
                + pad_dec((m % 60) as nat, 2)
        },
    }
}

impl Offset {
    /// The offset as `Z` or `+HH:MM`.
    pub fn to_string(&self) -> (s: String)
        ensures
            s@ == offset_text(*self),
    {
        let mut s = String::new();
        self.push_to(&mut s);
        assert(s@ =~= offset_text(*self));
        s
    }

    /// Appends the offset as `Z` or `+HH:MM`.
    pub fn push_to(&self, s: &mut String)
        ensures
            final(s)@ == old(s)@ + offset_text(*self),
    {
        match self {
            Offset::Z => push_char(s, 'Z'),
            Offset::Custom { minutes } => {
                let m: i32 = if *minutes < 0 { -(*minutes as i32) } else { *minutes as i32 };
                push_char(s, if *minutes < 0 { '-' } else { '+' });
                push_padded(s, (m / 60) as u64, 2);
                push_char(s, ':');
                push_padded(s, (m % 60) as u64, 2);
            },
        }
        assert(s@ =~= old(s)@ + offset_text(*self));
    }
}

/// Which of TOML's four date-time types a [`Datetime`] holds.
#[derive(Debug, Clone, Copy, PartialEq, Eq, PartialOrd, Ord, Hash, Structural)]
pub enum DatetimeKind {
    /// A date, a time and an offset: `1979-05-27T07:32:00Z`.
    OffsetDatetime,
    /// A date and a time, with no offset: `1979-05-27T07:32:00`.
    LocalDatetime,
    /// A date on its own: `1979-05-27`.
    LocalDate,
    /// A time on its own: `07:32:00`.
    LocalTime,
}

/// A TOML date-time: an offset date-time, a local date-time, a local date or a
/// local time, depending on which fields are present.
#[derive(Debug, Clone, Copy, PartialEq, Eq, Hash, Structural)]
pub struct Datetime {
    /// The date part, absent for a local time.
    pub date: Option<Date>,
    /// The time part, absent for a local date.
    pub time: Option<Time>,
    /// The time zone offset, present only for an offset date-time.
    pub offset: Option<Offset>,
}

/// Which kind a date-time is, from which of its parts are present.
pub open spec fn kind_of(dt: Datetime) -> DatetimeKind {
    if dt.date is Some && dt.time is Some && dt.offset is Some {
        DatetimeKind::OffsetDatetime
    } else if dt.date is Some && dt.time is Some {
        DatetimeKind::LocalDatetime
    } else if dt.date is None && dt.time is Some {
        DatetimeKind::LocalTime
    } else {
        DatetimeKind::LocalDate
    }
}

/// How a date-time is written: the date, a `T` if a time follows, the time,
/// then the offset.
pub open spec fn datetime_text(dt: Datetime) -> Seq<char> {
    let date = match dt.date {
        Some(d) => date_text(d) + if dt.time is Some { seq!['T'] } else { Seq::empty() },
        None => Seq::empty(),
    };
    let time = match dt.time {
        Some(t) => time_text(t),
        None => Seq::empty(),
    };
    let offset = match dt.offset {
        Some(o) => offset_text(o),
        None => Seq::empty(),
    };
    date + time + offset
}

impl Datetime {
    /// An offset date-time, such as `1979-05-27T07:32:00Z`.
    pub fn offset_datetime(date: Date, time: Time, offset: Offset) -> (dt: Datetime)
        ensures
            dt == (Datetime { date: Some(date), time: Some(time), offset: Some(offset) }),
    {
        Datetime { date: Some(date), time: Some(time), offset: Some(offset) }
    }

    /// A local date-time, such as `1979-05-27T07:32:00`.
    pub fn local_datetime(date: Date, time: Time) -> (dt: Datetime)
        ensures
            dt == (Datetime { date: Some(date), time: Some(time), offset: None }),
    {
        Datetime { date: Some(date), time: Some(time), offset: None }
    }

    /// A local date, such as `1979-05-27`.
    pub fn local_date(date: Date) -> (dt: Datetime)
        ensures
            dt == (Datetime { date: Some(date), time: None, offset: None }),
    {
        Datetime { date: Some(date), time: None, offset: None }
    }

    /// A local time, such as `07:32:00`.
    pub fn local_time(time: Time) -> (dt: Datetime)
        ensures
            dt == (Datetime { date: None, time: Some(time), offset: None }),
    {
        Datetime { date: None, time: Some(time), offset: None }
    }

    /// Which of the four TOML date-time types this value is. A value with
    /// neither a date nor a time reports a local date.
    pub fn kind(&self) -> (k: DatetimeKind)
        ensures
            k == kind_of(*self),
    {
        if self.date.is_some() && self.time.is_some() && self.offset.is_some() {
            DatetimeKind::OffsetDatetime
        } else if self.date.is_some() && self.time.is_some() {
            DatetimeKind::LocalDatetime
        } else if self.date.is_none() && self.time.is_some() {
            DatetimeKind::LocalTime
        } else {
            DatetimeKind::LocalDate
        }
    }

    /// The date-time in TOML syntax.
    pub fn to_string(&self) -> (s: String)
        ensures
            s@ == datetime_text(*self),
    {
        let mut s = String::new();
        self.push_to(&mut s);
        assert(s@ =~= datetime_text(*self));
        s
    }

    /// Appends the date-time in TOML syntax.
    pub fn push_to(&self, s: &mut String)
        ensures
            final(s)@ == old(s)@ + datetime_text(*self),
    {
        if let Some(date) = &self.date {
            date.push_to(s);
            if self.time.is_some() {
                push_char(s, 'T');
            }
        }
        if let Some(time) = &self.time {
            time.push_to(s);
        }
        if let Some(offset) = &self.offset {
            offset.push_to(s);
        }
        assert(s@ =~= old(s)@ + datetime_text(*self));
    }

    /// Parses a whole string as a date-time.
    pub fn parse_str(s: &str) -> (r: Result<Datetime, Error>)
        ensures
            r is Ok <==> (spec_scan(s@, 0) matches Ok(Some((dt, used))) && used == s@.len()),
            r matches Ok(dt) ==> spec_scan(s@, 0) == Ok::<_, ScanError>(
                Some((dt, s@.len() as int)),
            ),
            r matches Err(e) ==> e@.line == 0 && e@.column == 0 && e@.offset == 0 && e@.path.len() == 0 && e@.message == match spec_scan(s@, 0) {
                Ok(Some(_)) => "trailing data after date-time"@,
                Ok(None) => "expected a date-time"@,
                Err(k) => scan_error_message(k),
            },
    {
        let cs = str_chars(s);
        match scan(&cs, 0) {
            Ok(Some((dt, used))) => {
                if used == cs.len() {
                    Ok(dt)
                } else {
                    Err(Error::fixed("trailing data after date-time"))
                }
            },
            Ok(None) => Err(Error::fixed("expected a date-time")),
            Err(k) => Err(Error::fixed(k.message())),
        }
    }
}

impl core::str::FromStr for Datetime {
    type Err = Error;

    fn from_str(s: &str) -> (r: Result<Datetime, Error>)
        ensures
            r is Ok <==> (spec_scan(s@, 0) matches Ok(Some((dt, used))) && used == s@.len()),
            r matches Ok(dt) ==> spec_scan(s@, 0) == Ok::<_, ScanError>(Some((dt, s@.len() as int))),
            r matches Err(e) ==> e@.line == 0 && e@.column == 0 && e@.offset == 0 && e@.path.len() == 0 && e@.message == match spec_scan(s@, 0) {
                Ok(Some(_)) => "trailing data after date-time"@,
                Ok(None) => "expected a date-time"@,
                Err(k) => scan_error_message(k),
            },
    {
        Datetime::parse_str(s)
    }
}

impl From<Date> for Datetime {
    fn from(date: Date) -> (dt: Datetime) {
        Datetime::local_date(date)
    }
}

impl vstd::std_specs::convert::FromSpecImpl<Date> for Datetime {
    open spec fn obeys_from_spec() -> bool {
        true
    }

    open spec fn from_spec(date: Date) -> Datetime {
        Datetime { date: Some(date), time: None, offset: None }
    }
}

impl From<Time> for Datetime {
    fn from(time: Time) -> (dt: Datetime) {
        Datetime::local_time(time)
    }
}

impl vstd::std_specs::convert::FromSpecImpl<Time> for Datetime {
    open spec fn obeys_from_spec() -> bool {
        true
    }

    open spec fn from_spec(time: Time) -> Datetime {
        Datetime { date: None, time: Some(time), offset: None }
    }
}

/// Why text shaped like a date-time could not be read as one.
#[derive(Debug, Clone, Copy, PartialEq, Eq, Structural)]
pub enum ScanError {
    DateShape,
    DateRange,
    TimeShape,
    SecondsShape,
    FractionDigits,
    TimeRange,
    OffsetShape,
    OffsetRange,
}

/// The message that reports a scan error.
pub open spec fn scan_error_message(k: ScanError) -> Seq<char> {
    match k {
        ScanError::DateShape => "expected a date of the form YYYY-MM-DD"@,
        ScanError::DateRange => "date is out of range"@,
        ScanError::TimeShape => "expected a time of the form HH:MM"@,
        ScanError::SecondsShape => "expected two digits of seconds"@,
        ScanError::FractionDigits => "expected at least one digit after the decimal point"@,
        ScanError::TimeRange => "time is out of range"@,
        ScanError::OffsetShape => "expected a time offset of the form +HH:MM"@,
        ScanError::OffsetRange => "time offset is out of range"@,
    }
}

impl ScanError {
    /// The message that reports this error.
    pub fn message(&self) -> (m: &'static str)
        ensures
            m@ == scan_error_message(*self),
    {
        match self {
            ScanError::DateShape => "expected a date of the form YYYY-MM-DD",
            ScanError::DateRange => "date is out of range",
            ScanError::TimeShape => "expected a time of the form HH:MM",
            ScanError::SecondsShape => "expected two digits of seconds",
            ScanError::FractionDigits => "expected at least one digit after the decimal point",
            ScanError::TimeRange => "time is out of range",
            ScanError::OffsetShape => "expected a time offset of the form +HH:MM",
            ScanError::OffsetRange => "time offset is out of range",
        }
    }
}

/// The two-digit number at `i`.
pub open spec fn num2(s: Seq<char>, i: int) -> int {
    10 * digit_val(s[i]) + digit_val(s[i + 1])
}

/// The four-digit number at `i`.
pub open spec fn num4(s: Seq<char>, i: int) -> int {
    1000 * digit_val(s[i]) + 100 * digit_val(s[i + 1]) + 10 * digit_val(s[i + 2]) + digit_val(
        s[i + 3],
    )
}

/// Where the run of digits starting at `j` ends.
pub open spec fn digit_run_end(s: Seq<char>, j: int) -> int
    decreases s.len() - j,
{
    if 0 <= j < s.len() && is_digit(s[j]) {
        digit_run_end(s, j + 1)
    } else {
        j
    }
}

/// The nanoseconds a fraction's digits stand for: the first nine of them,
/// read as a number of nanoseconds; later digits are truncated.
pub open spec fn fraction_nanos(d: Seq<char>) -> int {
    let kept = if d.len() > 9 { d.take(9) } else { d };
    dec_value(kept) * pow10((9 - kept.len()) as nat)
}

/// Whether `s` has something shaped like `HH:` at `j`.
pub open spec fn looks_like_time(s: Seq<char>, j: int) -> bool {
    s.len() - j >= 3 && s[j + 2] == ':' && all_digits(s, j, j + 2)
}

/// Reads `HH:MM[:SS[.fraction]]` at `i`: the time and where it ends.
pub open spec fn spec_scan_time(s: Seq<char>, i: int) -> Result<(Time, int), ScanError> {
    let n = s.len() as int;
    if n - i < 5 || s[i + 2] != ':' || !all_digits(s, i, i + 2) || !all_digits(s, i + 3, i + 5) {
        Err(ScanError::TimeShape)
    } else {
        let hour = num2(s, i);
        let minute = num2(s, i + 3);
        let has_seconds = i + 5 < n && s[i + 5] == ':';
        if has_seconds && (n < i + 8 || !all_digits(s, i + 6, i + 8)) {
            Err(ScanError::SecondsShape)
        } else {
            let second = if has_seconds { num2(s, i + 6) } else { 0 };
            let j = if has_seconds { i + 8 } else { i + 5 };
            let has_fraction = has_seconds && j < n && s[j] == '.';
            let end = if has_fraction { digit_run_end(s, j + 1) } else { j };
            if has_fraction && end == j + 1 {
                Err(ScanError::FractionDigits)
            } else {
                let nanos = if has_fraction { fraction_nanos(s.subrange(j + 1, end)) } else { 0 };
                if valid_time(hour, minute, second, nanos) {
                    Ok(
                        (
                            Time {
                                hour: hour as u8,
                                minute: minute as u8,
                                second: second as u8,
                                nanosecond: nanos as u32,
                            },
                            end,
                        ),
                    )
                } else {
                    Err(ScanError::TimeRange)
                }
            }
        }
    }
}

/// Reads an offset at `k`, after a time: `Z`, `+HH:MM`, `-HH:MM` or nothing.
pub open spec fn spec_scan_offset(s: Seq<char>, k: int) -> Result<(Option<Offset>, int), ScanError> {
    let n = s.len() as int;
    if k < n && (s[k] == 'Z' || s[k] == 'z') {
        Ok((Some(Offset::Z), k + 1))
    } else if k < n && (s[k] == '+' || s[k] == '-') {
        if n < k + 6 || s[k + 3] != ':' || !all_digits(s, k + 1, k + 3) || !all_digits(
            s,
            k + 4,
            k + 6,
        ) {
            Err(ScanError::OffsetShape)
        } else {
            let hours = num2(s, k + 1);
            let minutes = num2(s, k + 4);
            if hours > 23 || minutes > 59 {
                Err(ScanError::OffsetRange)
            } else {
                let total = hours * 60 + minutes;
                Ok(
                    (
                        Some(
                            Offset::Custom {
                                minutes: (if s[k] == '-' { -total } else { total }) as i16,
                            },
                        ),
                        k + 6,
                    ),
                )
            }
        }
    } else {
        Ok((None, k))
    }
}

/// Reads a date-time at `i`.
///
/// `Ok(None)` when the text there is not shaped like a date-time at all (so a
/// caller can try a number instead), `Err` when it is but is malformed or out
/// of range, and otherwise the date-time and where it ends.
pub open spec fn spec_scan(s: Seq<char>, i: int) -> Result<Option<(Datetime, int)>, ScanError> {
    let n = s.len() as int;
    if n - i >= 5 && s[i + 4] == '-' && all_digits(s, i, i + 4) {
        if n - i < 10 || s[i + 7] != '-' || !all_digits(s, i + 5, i + 7) || !all_digits(
            s,
            i + 8,
            i + 10,
        ) {
            Err(ScanError::DateShape)
        } else if !valid_date(num4(s, i), num2(s, i + 5), num2(s, i + 8)) {
            Err(ScanError::DateRange)
        } else {
            let date = Date {
                year: num4(s, i) as u16,
                month: num2(s, i + 5) as u8,
                day: num2(s, i + 8) as u8,
            };
            let j = i + 10;
            let has_time = j < n && (s[j] == 'T' || s[j] == 't' || (s[j] == ' '
                && looks_like_time(s, j + 1)));
            if !has_time {
                Ok(Some((Datetime { date: Some(date), time: None, offset: None }, j)))
            } else {
                match spec_scan_time(s, j + 1) {
                    Err(e) => Err(e),
                    Ok((time, k)) => match spec_scan_offset(s, k) {
                        Err(e) => Err(e),
                        Ok((offset, end)) => Ok(
                            Some((Datetime { date: Some(date), time: Some(time), offset }, end)),
                        ),
                    },
                }
            }
        }
    } else if looks_like_time(s, i) {
        match spec_scan_time(s, i) {
            Err(e) => Err(e),
            Ok((time, k)) => Ok(Some((Datetime { date: None, time: Some(time), offset: None }, k))),
        }
    } else {
        Ok(None)
    }
}

/// Whether `cs[lo..hi]` is all decimal digits.
fn digits_at(cs: &Vec<char>, lo: usize, hi: usize) -> (b: bool)
    requires
        lo <= hi <= cs.len(),
    ensures
        b == all_digits(cs@, lo as int, hi as int),
{
    let mut k = lo;
    while k < hi
        invariant
            lo <= k <= hi <= cs.len(),
            all_digits(cs@, lo as int, k as int),
        decreases hi - k,
    {
        if !('0' <= cs[k] && cs[k] <= '9') {
            assert(!is_digit(cs@[k as int]));
            return false;
        }
        k += 1;
    }
    true
}

/// The two-digit number at `i`.
fn two_digits(cs: &Vec<char>, i: usize) -> (v: u32)
    requires
        i + 2 <= cs.len(),
        all_digits(cs@, i as int, i + 2),
    ensures
        v == num2(cs@, i as int),
        v < 100,
{
    assert(is_digit(cs@[i as int]) && is_digit(cs@[i + 1]));
    10 * char_digit(cs[i]) + char_digit(cs[i + 1])
}

/// The four-digit number at `i`.
fn four_digits(cs: &Vec<char>, i: usize) -> (v: u32)
    requires
        i + 4 <= cs.len(),
        all_digits(cs@, i as int, i + 4),
    ensures
        v == num4(cs@, i as int),
        v < 10000,
{
    assert(is_digit(cs@[i as int]) && is_digit(cs@[i + 1]) && is_digit(cs@[i + 2]) && is_digit(
        cs@[i + 3],
    ));
    1000 * char_digit(cs[i]) + 100 * char_digit(cs[i + 1]) + 10 * char_digit(cs[i + 2])
        + char_digit(cs[i + 3])
}

/// Whether `cs` has something shaped like `HH:` at `j`.
fn time_ahead(cs: &Vec<char>, j: usize) -> (b: bool)
    requires
        j <= cs.len(),
    ensures
        b == looks_like_time(cs@, j as int),
{
    cs.len() - j >= 3 && cs[j + 2] == ':' && digits_at(cs, j, j + 2)
}

proof fn lemma_digit_run_end(s: Seq<char>, j: int)
    requires
        0 <= j <= s.len(),
    ensures
        j <= digit_run_end(s, j) <= s.len(),
        all_digits(s, j, digit_run_end(s, j)),
        digit_run_end(s, j) < s.len() ==> !is_digit(s[digit_run_end(s, j)]),
    decreases s.len() - j,
{
    if j < s.len() && is_digit(s[j]) {
        lemma_digit_run_end(s, j + 1);
    }
}

proof fn lemma_dec_value_push(s: Seq<char>, c: char)
    ensures
        dec_value(s.push(c)) == dec_value(s) * 10 + digit_val(c),
{
    assert(s.push(c).drop_last() =~= s);
}

/// Reads `HH:MM[:SS[.fraction]]` at `i`.
fn scan_time(cs: &Vec<char>, i: usize) -> (r: Result<(Time, usize), ScanError>)
    requires
        i <= cs.len(),
    ensures
        match r {
            Ok((t, end)) => spec_scan_time(cs@, i as int) == Ok::<_, ScanError>((t, end as int)),
            Err(e) => spec_scan_time(cs@, i as int) == Err::<(Time, int), _>(e),
        },
        r matches Ok((_, end)) ==> i + 5 <= end <= cs.len(),
{
    let n = cs.len();
    if n - i < 5 || cs[i + 2] != ':' || !digits_at(cs, i, i + 2) || !digits_at(cs, i + 3, i + 5) {
        return Err(ScanError::TimeShape);
    }
    let hour = two_digits(cs, i);
    let minute = two_digits(cs, i + 3);
    let has_seconds = i + 5 < n && cs[i + 5] == ':';
    let mut second: u32 = 0;
    let mut j = i + 5;
    if has_seconds {
        if n - i < 8 || !digits_at(cs, i + 6, i + 8) {
            return Err(ScanError::SecondsShape);
        }
        second = two_digits(cs, i + 6);
        j = i + 8;
    }
    let has_fraction = has_seconds && j < n && cs[j] == '.';
    let mut nanos: u32 = 0;
    let mut end = j;
    if has_fraction {
        let start = j + 1;
        end = start;
        while end < n && '0' <= cs[end] && cs[end] <= '9'
            invariant
                start <= end <= n == cs.len(),
                digit_run_end(cs@, start as int) == digit_run_end(cs@, end as int),
            decreases n - end,
        {
            end += 1;
        }
        if end == start {
            return Err(ScanError::FractionDigits);
        }
        proof {
            lemma_digit_run_end(cs@, start as int);
        }
        let ghost d = cs@.subrange(start as int, end as int);
        let keep = if end - start > 9 { 9 } else { end - start };
        let ghost kept = if d.len() > 9 { d.take(9) } else { d };
        let mut k: usize = 0;
        while k < keep
            invariant
                k <= keep <= 9,
                keep == kept.len(),
                start + keep <= end <= cs.len(),
                kept =~= cs@.subrange(start as int, start + keep),
                all_digits(cs@, start as int, end as int),
                nanos == dec_value(kept.take(k as int)),
                nanos < pow10(k as nat),
            decreases keep - k,
        {
            assert(is_digit(cs@[start + k]));
            let dv = char_digit(cs[start + k]);
            proof {
                assert(kept.take(k + 1) =~= kept.take(k as int).push(cs@[start + k]));
                lemma_dec_value_push(kept.take(k as int), cs@[start + k]);
                assert(pow10((k + 1) as nat) == 10 * pow10(k as nat));
                assert(pow10(9) == 1_000_000_000) by {
                    reveal_with_fuel(pow10, 10);
                }
                assert(pow10(k as nat) <= pow10(8)) by {
                    lemma_pow10_mono(k as nat, 8);
                }
                assert(pow10(8) == 100_000_000) by {
                    reveal_with_fuel(pow10, 9);
                }
            }
            nanos = nanos * 10 + dv;
            k += 1;
        }
        assert(kept.take(keep as int) =~= kept);
        let ghost base = nanos;
        assert(pow10(0) == 1);
        assert(base * pow10(0) == base);
        while k < 9
            invariant
                keep <= k <= 9,
                nanos == base * pow10((k - keep) as nat),
                nanos < pow10(k as nat),
            decreases 9 - k,
        {
            proof {
                assert(pow10((k + 1 - keep) as nat) == 10 * pow10((k - keep) as nat));
                assert(pow10((k + 1) as nat) == 10 * pow10(k as nat));
                assert(pow10(9) == 1_000_000_000) by {
                    reveal_with_fuel(pow10, 10);
                }
                assert(pow10(k as nat) <= pow10(8)) by {
                    lemma_pow10_mono(k as nat, 8);
                }
                assert(pow10(8) == 100_000_000) by {
                    reveal_with_fuel(pow10, 9);
                }
                assert(base * pow10((k + 1 - keep) as nat) == (base * pow10((k - keep) as nat))
                    * 10) by (nonlinear_arith)
                    requires
                        pow10((k + 1 - keep) as nat) == 10 * pow10((k - keep) as nat),
                ;
            }
            nanos = nanos * 10;
            k += 1;
        }
        assert(nanos == fraction_nanos(d));
    }
    let ghost spec = spec_scan_time(cs@, i as int);
    match Time::new(hour as u8, minute as u8, second as u8, nanos) {
        Some(t) => Ok((t, end)),
        None => Err(ScanError::TimeRange),
    }
}

/// `10^a <= 10^b` when `a <= b`.
pub proof fn lemma_pow10_mono(a: nat, b: nat)
    requires
        a <= b,
    ensures
        pow10(a) <= pow10(b),
    decreases b,
{
    if a < b {
        lemma_pow10_mono(a, (b - 1) as nat);
        crate::text::lemma_pow10_positive((b - 1) as nat);
    }
}

/// Reads an offset at `k`.
fn scan_offset(cs: &Vec<char>, k: usize) -> (r: Result<(Option<Offset>, usize), ScanError>)
    requires
        k <= cs.len(),
    ensures
        match r {
            Ok((o, end)) => spec_scan_offset(cs@, k as int) == Ok::<_, ScanError>((o, end as int)),
            Err(e) => spec_scan_offset(cs@, k as int) == Err::<(Option<Offset>, int), _>(e),
        },
        r matches Ok((_, end)) ==> k <= end <= cs.len(),
{
    let n = cs.len();
    if k < n && (cs[k] == 'Z' || cs[k] == 'z') {
        Ok((Some(Offset::Z), k + 1))
    } else if k < n && (cs[k] == '+' || cs[k] == '-') {
        let negative = cs[k] == '-';
        if n - k < 6 || cs[k + 3] != ':' || !digits_at(cs, k + 1, k + 3) || !digits_at(
            cs,
            k + 4,
            k + 6,
        ) {
            return Err(ScanError::OffsetShape);
        }
        let hours = two_digits(cs, k + 1);
        let minutes = two_digits(cs, k + 4);
        if hours > 23 || minutes > 59 {
            return Err(ScanError::OffsetRange);
        }
        let total = (hours * 60 + minutes) as i16;
        Ok((Some(Offset::Custom { minutes: if negative { -total } else { total } }), k + 6))
    } else {
        Ok((None, k))
    }
}

/// Scans a date-time at `i`; see [`spec_scan`].
pub fn scan(cs: &Vec<char>, i: usize) -> (r: Result<Option<(Datetime, usize)>, ScanError>)
    requires
        i <= cs.len(),
    ensures
        match r {
            Ok(Some((dt, end))) => spec_scan(cs@, i as int) == Ok::<_, ScanError>(
                Some((dt, end as int)),
            ),
            Ok(None) => spec_scan(cs@, i as int) == Ok::<Option<(Datetime, int)>, ScanError>(None),
            Err(e) => spec_scan(cs@, i as int) == Err::<Option<(Datetime, int)>, _>(e),
        },
        r matches Ok(Some((_, end))) ==> i < end <= cs.len(),
{
    let n = cs.len();
    if n - i >= 5 && cs[i + 4] == '-' && digits_at(cs, i, i + 4) {
        if n - i < 10 || cs[i + 7] != '-' || !digits_at(cs, i + 5, i + 7) || !digits_at(
            cs,
            i + 8,
            i + 10,
        ) {
            return Err(ScanError::DateShape);
        }
        let year = four_digits(cs, i);
        let month = two_digits(cs, i + 5);
        let day = two_digits(cs, i + 8);
        let date = match Date::new(year as u16, month as u8, day as u8) {
            Some(d) => d,
            None => return Err(ScanError::DateRange),
        };
        let j = i + 10;
        let has_time = j < n && (cs[j] == 'T' || cs[j] == 't' || (cs[j] == ' ' && time_ahead(
            cs,
            j + 1,
        )));
        if !has_time {
            return Ok(Some((Datetime::local_date(date), j)));
        }
        let (time, k) = match scan_time(cs, j + 1) {
            Ok(tk) => tk,
            Err(e) => return Err(e),
        };
        let (offset, end) = match scan_offset(cs, k) {
            Ok(oe) => oe,
            Err(e) => return Err(e),
        };
        Ok(Some((Datetime { date: Some(date), time: Some(time), offset }, end)))
    } else if time_ahead(cs, i) {
        match scan_time(cs, i) {
            Ok((time, k)) => Ok(Some((Datetime::local_time(time), k))),
            Err(e) => Err(e),
        }
    } else {
        Ok(None)
    }
}

} // verus!

verus! {

/// Whether an offset can be written and read back: `Z`, or at most 23 hours
/// and 59 minutes either side of UTC.
pub open spec fn valid_offset(o: Offset) -> bool {
    match o {
        Offset::Z => true,
        Offset::Custom { minutes } => -1439 <= minutes <= 1439,
    }
}

/// Whether a date-time is one of TOML's four kinds with every part in range:
/// a date or a time (or both), an offset only with both, and each part valid.
pub open spec fn valid_datetime(dt: Datetime) -> bool {
    &&& (dt.date is Some || dt.time is Some)
    &&& (dt.date matches Some(d) ==> valid_date(d.year as int, d.month as int, d.day as int))
    &&& (dt.time matches Some(t) ==> valid_time(
        t.hour as int,
        t.minute as int,
        t.second as int,
        t.nanosecond as int,
    ))
    &&& (dt.offset matches Some(o) ==> dt.date is Some && dt.time is Some && valid_offset(o))
}

/// Two digits read as `num2` are worth their value.
proof fn lemma_num2(s: Seq<char>, i: int)
    requires
        0 <= i,
        i + 2 <= s.len(),
    ensures
        num2(s, i) == dec_value(s.subrange(i, i + 2)),
{
    let p = s.subrange(i, i + 2);
    assert(p.drop_last() =~= seq![s[i]]);
    assert(seq![s[i]].drop_last() =~= Seq::<char>::empty());
    assert(seq![s[i]].last() == s[i]);
    assert(dec_value(Seq::<char>::empty()) == 0);
    assert(dec_value(seq![s[i]]) == digit_val(s[i]));
    assert(p.last() == s[i + 1]);
}

/// Four digits read as `num4` are worth their value.
proof fn lemma_num4(s: Seq<char>, i: int)
    requires
        0 <= i,
        i + 4 <= s.len(),
    ensures
        num4(s, i) == dec_value(s.subrange(i, i + 4)),
{
    let p = s.subrange(i, i + 4);
    let p3 = s.subrange(i, i + 3);
    assert(p.drop_last() =~= p3);
    assert(p3.drop_last() =~= s.subrange(i, i + 2));
    assert(p.last() == s[i + 3]);
    assert(p3.last() == s[i + 2]);
    lemma_num2(s, i);
    assert(dec_value(p3) == dec_value(s.subrange(i, i + 2)) * 10 + digit_val(s[i + 2]));
    assert(dec_value(p) == dec_value(p3) * 10 + digit_val(s[i + 3]));
}

/// Where a run of digits ends, when it is known to end at `e`.
proof fn lemma_digit_run_ends_at(s: Seq<char>, j: int, e: int)
    requires
        0 <= j <= e <= s.len(),
        all_digits(s, j, e),
        e == s.len() || !is_digit(s[e]),
    ensures
        digit_run_end(s, j) == e,
    decreases e - j,
{
    if j < e {
        lemma_digit_run_ends_at(s, j + 1, e);
    }
}

/// Dropping the trailing zeros of a run of digits divides its value by the
/// matching power of ten, and leaves something unless the value was zero.
proof fn lemma_strip_trailing_zeros(p: Seq<char>)
    requires
        all_digits(p, 0, p.len() as int),
    ensures
        strip_trailing_zeros(p).len() <= p.len(),
        strip_trailing_zeros(p) == p.take(strip_trailing_zeros(p).len() as int),
        dec_value(p) == dec_value(strip_trailing_zeros(p)) * pow10(
            (p.len() - strip_trailing_zeros(p).len()) as nat,
        ),
        dec_value(p) != 0 ==> strip_trailing_zeros(p).len() > 0,
    decreases p.len(),
{
    if p.len() > 0 && p.last() == '0' {
        let q = p.drop_last();
        assert(all_digits(q, 0, q.len() as int)) by {
            assert forall|k: int| 0 <= k < q.len() implies #[trigger] is_digit(q[k]) by {
                assert(is_digit(p[k]));
            }
        }
        lemma_strip_trailing_zeros(q);
        let s = strip_trailing_zeros(q);
        assert(strip_trailing_zeros(p) == s);
        assert(p.take(s.len() as int) =~= q.take(s.len() as int));
        let k = (q.len() - s.len()) as nat;
        assert(pow10(k + 1) == 10 * pow10(k));
        assert(((p.len() - s.len()) as nat) == k + 1);
        assert(dec_value(p) == dec_value(q) * 10 + digit_val(p.last()));
        assert(digit_val(p.last()) == 0);
        assert(dec_value(q) == dec_value(s) * pow10(k));
        assert(dec_value(s) * pow10(k) * 10 == dec_value(s) * (10 * pow10(k))) by (nonlinear_arith);
        assert(dec_value(p) == dec_value(s) * pow10(k + 1));
        assert(pow10((p.len() - strip_trailing_zeros(p).len()) as nat) == pow10(k + 1));
        if s.len() == 0 {
            assert(dec_value(s) == 0);
        }
    } else {
        assert(p.take(p.len() as int) =~= p);
        assert(strip_trailing_zeros(p) == p);
        assert(pow10(0) == 1);
        assert(((p.len() - strip_trailing_zeros(p).len()) as nat) == 0);
        assert(dec_value(p) == dec_value(p) * pow10(0));
    }
}

/// The written fraction of a time reads back as its nanoseconds.
proof fn lemma_fraction_reads_back(ns: nat)
    requires
        0 < ns <= 999_999_999,
    ensures
        strip_trailing_zeros(pad_dec(ns, 9)).len() > 0,
        strip_trailing_zeros(pad_dec(ns, 9)).len() <= 9,
        all_digits(strip_trailing_zeros(pad_dec(ns, 9)), 0, strip_trailing_zeros(pad_dec(ns, 9)).len() as int),
        fraction_nanos(strip_trailing_zeros(pad_dec(ns, 9))) == ns,
{
    assert(pow10(9) == 1_000_000_000) by {
        reveal_with_fuel(pow10, 10);
    }
    lemma_pad_dec(ns, 9);
    let p = pad_dec(ns, 9);
    lemma_strip_trailing_zeros(p);
    let s = strip_trailing_zeros(p);
    assert forall|k: int| 0 <= k < s.len() implies #[trigger] is_digit(s[k]) by {
        assert(s[k] == p[k]);
    }
}

/// The written date reads back as that date.
proof fn lemma_date_reads_back(d: Date, t: Seq<char>, i: int)
    requires
        valid_date(d.year as int, d.month as int, d.day as int),
        0 <= i,
        i + 10 <= t.len(),
        t.subrange(i, i + 10) == date_text(d),
    ensures
        t[i + 4] == '-',
        t[i + 7] == '-',
        all_digits(t, i, i + 4),
        all_digits(t, i + 5, i + 7),
        all_digits(t, i + 8, i + 10),
        num4(t, i) == d.year,
        num2(t, i + 5) == d.month,
        num2(t, i + 8) == d.day,
{
    assert(pow10(4) == 10000) by {
        reveal_with_fuel(pow10, 5);
    }
    assert(pow10(2) == 100) by {
        reveal_with_fuel(pow10, 3);
    }
    lemma_pad_dec(d.year as nat, 4);
    lemma_pad_dec(d.month as nat, 2);
    lemma_pad_dec(d.day as nat, 2);
    let y = pad_dec(d.year as nat, 4);
    let m = pad_dec(d.month as nat, 2);
    let dd = pad_dec(d.day as nat, 2);
    let w = t.subrange(i, i + 10);
    assert(w =~= y + seq!['-'] + m + seq!['-'] + dd);
    assert(w.subrange(0, 4) =~= y);
    assert(w.subrange(5, 7) =~= m);
    assert(w.subrange(8, 10) =~= dd);
    assert(t.subrange(i, i + 4) =~= w.subrange(0, 4));
    assert(t.subrange(i + 5, i + 7) =~= w.subrange(5, 7));
    assert(t.subrange(i + 8, i + 10) =~= w.subrange(8, 10));
    assert(t[i + 4] == w[4]);
    assert(t[i + 7] == w[7]);
    assert forall|k: int| i <= k < i + 4 implies #[trigger] is_digit(t[k]) by {
        assert(t[k] == y[k - i]);
    }
    assert forall|k: int| i + 5 <= k < i + 7 implies #[trigger] is_digit(t[k]) by {
        assert(t[k] == m[k - i - 5]);
    }
    assert forall|k: int| i + 8 <= k < i + 10 implies #[trigger] is_digit(t[k]) by {
        assert(t[k] == dd[k - i - 8]);
    }
    lemma_num4(t, i);
    lemma_num2(t, i + 5);
    lemma_num2(t, i + 8);
}

} // verus!

verus! {

/// The written time reads back as that time, when what follows it is
/// neither a digit nor a `.`.
proof fn lemma_time_reads_back(tm: Time, t: Seq<char>, i: int)
    requires
        valid_time(tm.hour as int, tm.minute as int, tm.second as int, tm.nanosecond as int),
        0 <= i,
        i + time_text(tm).len() <= t.len(),
        t.subrange(i, i + time_text(tm).len()) == time_text(tm),
        i + time_text(tm).len() == t.len() || (t[i + time_text(tm).len()] != '.' && !is_digit(
            t[i + time_text(tm).len()],
        )),
    ensures
        spec_scan_time(t, i) == Ok::<(Time, int), ScanError>((tm, i + time_text(tm).len())),
{
    assert(pow10(2) == 100) by {
        reveal_with_fuel(pow10, 3);
    }
    lemma_pad_dec(tm.hour as nat, 2);
    lemma_pad_dec(tm.minute as nat, 2);
    lemma_pad_dec(tm.second as nat, 2);
    let h = pad_dec(tm.hour as nat, 2);
    let mi = pad_dec(tm.minute as nat, 2);
    let se = pad_dec(tm.second as nat, 2);
    let whole = h + seq![':'] + mi + seq![':'] + se;
    let text = time_text(tm);
    let n = t.len() as int;
    assert(text.subrange(0, 8) =~= whole);
    assert(whole.subrange(0, 2) =~= h);
    assert(whole.subrange(3, 5) =~= mi);
    assert(whole.subrange(6, 8) =~= se);
    assert(t.subrange(i, i + 8) =~= text.subrange(0, 8));
    assert(t.subrange(i, i + 2) =~= whole.subrange(0, 2));
    assert(t.subrange(i + 3, i + 5) =~= whole.subrange(3, 5));
    assert(t.subrange(i + 6, i + 8) =~= whole.subrange(6, 8));
    assert(t[i + 2] == whole[2]);
    assert(t[i + 5] == whole[5]);
    assert forall|k: int| i <= k < i + 2 implies #[trigger] is_digit(t[k]) by {
        assert(t[k] == h[k - i]);
    }
    assert forall|k: int| i + 3 <= k < i + 5 implies #[trigger] is_digit(t[k]) by {
        assert(t[k] == mi[k - i - 3]);
    }
    assert forall|k: int| i + 6 <= k < i + 8 implies #[trigger] is_digit(t[k]) by {
        assert(t[k] == se[k - i - 6]);
    }
    lemma_num2(t, i);
    lemma_num2(t, i + 3);
    lemma_num2(t, i + 6);
    let j = i + 8;
    if tm.nanosecond != 0 {
        let ns = tm.nanosecond as nat;
        assert(ns % 1_000_000_000 == ns);
        lemma_fraction_reads_back(ns);
        let f = strip_trailing_zeros(pad_dec(ns, 9));
        assert(text =~= whole + seq!['.'] + f);
        assert(t[j] == text[8]);
        let end = j + 1 + f.len();
        assert(t.subrange(j + 1, end) =~= f) by {
            assert forall|k: int| 0 <= k < f.len() implies #[trigger] t.subrange(j + 1, end)[k] == f[k] by {
                assert(t[j + 1 + k] == text[9 + k]);
            }
        }
        assert forall|k: int| j + 1 <= k < end implies #[trigger] is_digit(t[k]) by {
            assert(t[k] == f[k - j - 1]);
        }
        lemma_digit_run_ends_at(t, j + 1, end);
    } else {
        assert(text == whole);
    }
}

/// The hours and minutes of an offset, and how they add back up.
proof fn lemma_offset_arith(minutes: i16)
    requires
        -1439 <= minutes <= 1439,
    ensures
        ({
            let m: int = if minutes < 0 { -minutes } else { minutes as int };
            &&& 0 <= m / 60 <= 23
            &&& 0 <= m % 60 <= 59
            &&& (m / 60) * 60 + m % 60 == m
            &&& ((if minutes < 0 { -m } else { m }) as i16) == minutes
        }),
{
}

/// `sign HH:MM` written at `k` reads as its two numbers.
proof fn lemma_hh_mm(t: Seq<char>, k: int, sign: char, a: nat, b: nat)
    requires
        0 <= k,
        k + 6 <= t.len(),
        a < 100,
        b < 100,
        t.subrange(k, k + 6) == seq![sign] + pad_dec(a, 2) + seq![':'] + pad_dec(b, 2),
    ensures
        t[k] == sign,
        t[k + 3] == ':',
        all_digits(t, k + 1, k + 3),
        all_digits(t, k + 4, k + 6),
        num2(t, k + 1) == a,
        num2(t, k + 4) == b,
{
    assert(pow10(2) == 100) by {
        reveal_with_fuel(pow10, 3);
    }
    lemma_pad_dec(a, 2);
    lemma_pad_dec(b, 2);
    let hh = pad_dec(a, 2);
    let mm = pad_dec(b, 2);
    let w = t.subrange(k, k + 6);
    assert(w[0] == sign);
    assert(w[3] == ':');
    assert(w.subrange(1, 3) =~= hh);
    assert(w.subrange(4, 6) =~= mm);
    assert(t.subrange(k + 1, k + 3) =~= w.subrange(1, 3));
    assert(t.subrange(k + 4, k + 6) =~= w.subrange(4, 6));
    assert forall|q: int| k + 1 <= q < k + 3 implies #[trigger] is_digit(t[q]) by {
        assert(t[q] == hh[q - k - 1]);
    }
    assert forall|q: int| k + 4 <= q < k + 6 implies #[trigger] is_digit(t[q]) by {
        assert(t[q] == mm[q - k - 4]);
    }
    lemma_num2(t, k + 1);
    lemma_num2(t, k + 4);
}

/// The written offset reads back as that offset.
proof fn lemma_offset_reads_back(o: Offset, t: Seq<char>, k: int)
    requires
        valid_offset(o),
        0 <= k,
        k + offset_text(o).len() <= t.len(),
        t.subrange(k, k + offset_text(o).len()) == offset_text(o),
    ensures
        spec_scan_offset(t, k) == Ok::<(Option<Offset>, int), ScanError>(
            (Some(o), k + offset_text(o).len()),
        ),
{
    let text = offset_text(o);
    match o {
        Offset::Z => {
            assert(t[k] == text[0]);
        },
        Offset::Custom { minutes } => {
            lemma_offset_arith(minutes);
            let m: int = if minutes < 0 { -minutes } else { minutes as int };
            let sign = if minutes < 0 { '-' } else { '+' };
            assert(pow10(2) == 100) by {
                reveal_with_fuel(pow10, 3);
            }
            lemma_pad_dec((m / 60) as nat, 2);
            lemma_pad_dec((m % 60) as nat, 2);
            assert(text.len() == 6);
            lemma_hh_mm(t, k, sign, (m / 60) as nat, (m % 60) as nat);
        },
    }
}

/// What the writer writes for a date-time, the scanner reads back: the same
/// date-time, ending where its text ends, wherever the text stands and
/// whatever value-closing text follows it.
#[verifier::spinoff_prover]
#[verifier::rlimit(80)]
pub proof fn law_datetime_reads_back(pre: Seq<char>, dt: Datetime, rest: Seq<char>)
    requires
        valid_datetime(dt),
        closes_value(rest),
    ensures
        spec_scan(pre + datetime_text(dt) + rest, pre.len() as int) == Ok::<Option<(Datetime, int)>, ScanError>(
            Some((dt, (pre.len() + datetime_text(dt).len()) as int)),
        ),
{
    let text = datetime_text(dt);
    let t = pre + text + rest;
    let p = pre.len() as int;
    let n = t.len() as int;
    let ot = match dt.offset {
        Some(o) => offset_text(o),
        None => Seq::<char>::empty(),
    };
    assert forall|k: int| 0 <= k < text.len() implies #[trigger] t[p + k] == text[k] by {}
    assert forall|k: int| 0 <= k < rest.len() implies #[trigger] t[p + text.len() + k] == rest[k] by {}
    match dt.date {
        Some(d) => {
            let dtext = date_text(d);
            lemma_pad_dec_lens(d);
            assert(t.subrange(p, p + 10) =~= dtext) by {
                assert forall|k: int| 0 <= k < 10 implies #[trigger] t.subrange(p, p + 10)[k] == dtext[k] by {
                    assert(t[p + k] == text[k]);
                }
            }
            lemma_date_reads_back(d, t, p);
            match dt.time {
                Some(tm) => {
                    let tt = time_text(tm);
                    let tl = tt.len() as int;
                    assert(text =~= dtext + seq!['T'] + tt + ot);
                    assert(t[p + 10] == 'T');
                    assert(t.subrange(p + 11, p + 11 + tl) =~= tt) by {
                        assert forall|k: int| 0 <= k < tt.len() implies #[trigger] t.subrange(p + 11, p + 11 + tl)[k] == tt[k] by {
                            assert(t[p + 11 + k] == text[11 + k]);
                        }
                    }
                    let k: int = p + 11 + tl;
                    match dt.offset {
                        Some(o) => {
                            assert(t[k] == text[11 + tl]);
                            assert(t[k] == ot[0]);
                            assert(ot[0] == 'Z' || ot[0] == '+' || ot[0] == '-');
                            lemma_time_reads_back(tm, t, p + 11);
                            assert(t.subrange(k, k + ot.len() as int) =~= ot) by {
                                assert forall|q: int| 0 <= q < ot.len() implies #[trigger] t.subrange(k, k + ot.len() as int)[q] == ot[q] by {
                                    assert(t[k + q] == text[11 + tl + q]);
                                }
                            }
                            lemma_offset_reads_back(o, t, k);
                        },
                        None => {
                            assert(text =~= dtext + seq!['T'] + tt);
                            if k < n {
                                assert(t[k] == rest[0]);
                            }
                            lemma_time_reads_back(tm, t, p + 11);
                        },
                    }
                },
                None => {
                    assert(text =~= dtext);
                    if p + 10 < n {
                        assert(t[p + 10] == rest[0]);
                        if rest[0] == ' ' {
                            assert(t[p + 11] == rest[1]);
                        }
                    }
                },
            }
        },
        None => {
            let tm = dt.time->Some_0;
            let tt = time_text(tm);
            let tl = tt.len() as int;
            assert(text =~= tt);
            assert(t.subrange(p, p + tl) =~= tt) by {
                assert forall|q: int| 0 <= q < tt.len() implies #[trigger] t.subrange(p, p + tl)[q] == tt[q] by {
                    assert(t[p + q] == text[q]);
                }
            }
            if p + tl < n {
                assert(t[p + tl] == rest[0]);
            }
            lemma_time_reads_back(tm, t, p);
            assert(t[p + 4] == tt[4]);
            assert(!(t[p + 4] == '-')) by {
                lemma_time_text_digit(tm);
            }
        },
    }
}

/// A written date takes ten characters.
proof fn lemma_pad_dec_lens(d: Date)
    requires
        valid_date(d.year as int, d.month as int, d.day as int),
    ensures
        date_text(d).len() == 10,
{
    assert(pow10(4) == 10000) by {
        reveal_with_fuel(pow10, 5);
    }
    assert(pow10(2) == 100) by {
        reveal_with_fuel(pow10, 3);
    }
    lemma_pad_dec(d.year as nat, 4);
    lemma_pad_dec(d.month as nat, 2);
    lemma_pad_dec(d.day as nat, 2);
}

/// The fifth character of a written time is a digit of its minutes.
proof fn lemma_time_text_digit(tm: Time)
    requires
        valid_time(tm.hour as int, tm.minute as int, tm.second as int, tm.nanosecond as int),
    ensures
        time_text(tm).len() >= 8,
        is_digit(time_text(tm)[4]),
        time_text(tm)[2] == ':',
{
    assert(pow10(2) == 100) by {
        reveal_with_fuel(pow10, 3);
    }
    lemma_pad_dec(tm.hour as nat, 2);
    lemma_pad_dec(tm.minute as nat, 2);
    lemma_pad_dec(tm.second as nat, 2);
    let mi = pad_dec(tm.minute as nat, 2);
    let text = time_text(tm);
    assert(text[4] == mi[1]);
}

} // verus!
