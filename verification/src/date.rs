//! Calendar dates and instants as plain values, with their compact text forms.

use vstd::prelude::*;

verus! {

/// A day of the proleptic Gregorian calendar.
#[derive(Clone, Copy, Debug, PartialEq, Eq, Structural, PartialOrd, Ord, Hash)]
pub struct Date {
    pub year: i32,
    pub month: u8,
    pub day: u8,
}

/// An instant in UTC, to the second.
#[derive(Clone, Copy, Debug, PartialEq, Eq, Structural, Hash)]
pub struct Timestamp {
    pub date: Date,
    pub hour: u8,
    pub minute: u8,
    pub second: u8,
}

pub open spec fn is_leap_year(year: int) -> bool {
    year % 4 == 0 && (year % 100 != 0 || year % 400 == 0)
}

pub open spec fn days_in_month(year: int, month: int) -> int {
    if month == 2 {
        if is_leap_year(year) { 29 } else { 28 }
    } else if month == 4 || month == 6 || month == 9 || month == 11 {
        30
    } else {
        31
    }
}

/// The decimal digit for a number below ten.
pub open spec fn digit(n: int) -> char {
    seq!['0', '1', '2', '3', '4', '5', '6', '7', '8', '9'][n]
}

pub open spec fn two_digits(n: int) -> Seq<char> {
    seq![digit(n / 10 % 10), digit(n % 10)]
}

pub open spec fn four_digits(n: int) -> Seq<char> {
    seq![digit(n / 1000 % 10), digit(n / 100 % 10), digit(n / 10 % 10), digit(n % 10)]
}

impl Date {
    /// The date exists and its year has at most four digits.
    pub open spec fn wf(&self) -> bool {
        &&& -9999 <= self.year <= 9999
        &&& 1 <= self.month <= 12
        &&& 1 <= self.day <= days_in_month(self.year as int, self.month as int)
    }

    /// A number that orders dates as the calendar does.
    pub open spec fn key(&self) -> int {
        self.year * 10000 + self.month * 100 + self.day
    }

    /// The last date that can be represented.
    pub open spec fn is_last(&self) -> bool {
        self.year == 9999 && self.month == 12 && self.day == 31
    }

    /// The day after this one.
    pub open spec fn successor(&self) -> Date {
        if self.day < days_in_month(self.year as int, self.month as int) {
            Date { year: self.year, month: self.month, day: (self.day + 1) as u8 }
        } else if self.month < 12 {
            Date { year: self.year, month: (self.month + 1) as u8, day: 1 }
        } else {
            Date { year: (self.year + 1) as i32, month: 1, day: 1 }
        }
    }

    /// `YYYYMMDD`, with a leading minus for a year before zero.
    pub open spec fn compact(&self) -> Seq<char> {
        (if self.year < 0 { seq!['-'] } else { Seq::<char>::empty() })
            + four_digits(if self.year < 0 { -self.year } else { self.year as int })
            + two_digits(self.month as int)
            + two_digits(self.day as int)
    }

    /// Whether the date exists and its year has at most four digits.
    pub fn is_valid(&self) -> (r: bool)
        ensures
            r == self.wf(),
    {
        if self.year < -9999 || self.year > 9999 || self.month < 1 || self.month > 12 {
            return false;
        }
        let leap = self.year % 4 == 0 && (self.year % 100 != 0 || self.year % 400 == 0);
        let last: u8 = if self.month == 2 {
            if leap {
                29
            } else {
                28
            }
        } else if self.month == 4 || self.month == 6 || self.month == 9 || self.month == 11 {
            30
        } else {
            31
        };
        1 <= self.day && self.day <= last
    }

    /// Whether this date comes strictly before `other`.
    pub fn is_before(&self, other: &Date) -> (r: bool)
        ensures
            r == (self.key() < other.key()),
    {
        let a: i64 = self.year as i64 * 10000 + self.month as i64 * 100 + self.day as i64;
        let b: i64 = other.year as i64 * 10000 + other.month as i64 * 100 + other.day as i64;
        a < b
    }

    /// Whether the two dates are the same day.
    pub fn same_day(&self, other: &Date) -> (r: bool)
        ensures
            r == (self.key() == other.key()),
            self.wf() && other.wf() ==> r == (*self == *other),
    {
        let a: i64 = self.year as i64 * 10000 + self.month as i64 * 100 + self.day as i64;
        let b: i64 = other.year as i64 * 10000 + other.month as i64 * 100 + other.day as i64;
        a == b
    }

    /// The day after this one.
    pub fn next_day(&self) -> (next: Date)
        requires
            self.wf(),
            !self.is_last(),
        ensures
            next == self.successor(),
            next.wf(),
            self.key() < next.key(),
    {
        day_after(*self)
    }

    /// The compact text of this date.
    pub fn to_compact(&self) -> (text: String)
        requires
            self.wf(),
        ensures
            text@ == self.compact(),
    {
        compact_date_text(*self)
    }
}

impl Timestamp {
    pub open spec fn wf(&self) -> bool {
        &&& self.date.wf()
        &&& self.hour < 24
        &&& self.minute < 60
        &&& self.second < 60
    }

    /// `YYYYMMDDTHHMMSSZ`.
    pub open spec fn compact(&self) -> Seq<char> {
        self.date.compact() + seq!['T'] + two_digits(self.hour as int) + two_digits(
            self.minute as int,
        ) + two_digits(self.second as int) + seq!['Z']
    }

    /// The compact text of this instant.
    pub fn to_compact(&self) -> (text: String)
        requires
            self.wf(),
        ensures
            text@ == self.compact(),
    {
        compact_stamp_text(*self)
    }
}

/// The day after a date is the earliest date that comes after it.
pub proof fn lemma_successor_is_next(date: Date, other: Date)
    requires
        date.wf(),
        !date.is_last(),
        other.wf(),
    ensures
        date.successor().wf(),
        date.key() < date.successor().key(),
        !(date.key() < other.key() < date.successor().key()),
{
}

/// Different digits have different characters.
pub proof fn lemma_digit_injective(a: int, b: int)
    requires
        0 <= a < 10,
        0 <= b < 10,
        digit(a) == digit(b),
    ensures
        a == b,
{
}

/// Numbers below a hundred with the same two digits are equal.
pub proof fn lemma_two_digits_injective(a: int, b: int)
    requires
        0 <= a < 100,
        0 <= b < 100,
        two_digits(a) == two_digits(b),
    ensures
        a == b,
{
    assert(two_digits(a)[0] == two_digits(b)[0]);
    assert(two_digits(a)[1] == two_digits(b)[1]);
    lemma_digit_injective(a / 10 % 10, b / 10 % 10);
    lemma_digit_injective(a % 10, b % 10);
}

/// Numbers below ten thousand with the same four digits are equal.
pub proof fn lemma_four_digits_injective(a: int, b: int)
    requires
        0 <= a < 10000,
        0 <= b < 10000,
        four_digits(a) == four_digits(b),
    ensures
        a == b,
{
    assert(four_digits(a)[0] == four_digits(b)[0]);
    assert(four_digits(a)[1] == four_digits(b)[1]);
    assert(four_digits(a)[2] == four_digits(b)[2]);
    assert(four_digits(a)[3] == four_digits(b)[3]);
    lemma_digit_injective(a / 1000 % 10, b / 1000 % 10);
    lemma_digit_injective(a / 100 % 10, b / 100 % 10);
    lemma_digit_injective(a / 10 % 10, b / 10 % 10);
    lemma_digit_injective(a % 10, b % 10);
}

/// Different dates have different compact texts.
pub proof fn lemma_date_compact_injective(a: Date, b: Date)
    requires
        a.wf(),
        b.wf(),
        a.compact() == b.compact(),
    ensures
        a == b,
{
    let ta = a.compact();
    let tb = b.compact();
    let ya = if a.year < 0 { -a.year } else { a.year as int };
    let yb = if b.year < 0 { -b.year } else { b.year as int };
    let off: int = if a.year < 0 { 1 } else { 0 };
    assert(ta.len() == 8 + off);
    assert(tb.len() == 8 + (if b.year < 0 { 1int } else { 0int }));
    assert((a.year < 0) == (b.year < 0));
    assert(ta.subrange(off, off + 4) =~= four_digits(ya));
    assert(tb.subrange(off, off + 4) =~= four_digits(yb));
    assert(ta.subrange(off + 4, off + 6) =~= two_digits(a.month as int));
    assert(tb.subrange(off + 4, off + 6) =~= two_digits(b.month as int));
    assert(ta.subrange(off + 6, off + 8) =~= two_digits(a.day as int));
    assert(tb.subrange(off + 6, off + 8) =~= two_digits(b.day as int));
    lemma_four_digits_injective(ya, yb);
    lemma_two_digits_injective(a.month as int, b.month as int);
    lemma_two_digits_injective(a.day as int, b.day as int);
}

/// Different instants have different compact texts.
pub proof fn lemma_stamp_compact_injective(a: Timestamp, b: Timestamp)
    requires
        a.wf(),
        b.wf(),
        a.compact() == b.compact(),
    ensures
        a == b,
{
    let ta = a.compact();
    let tb = b.compact();
    let na = a.date.compact().len() as int;
    let nb = b.date.compact().len() as int;
    assert(na == 8 + (if a.date.year < 0 { 1int } else { 0int }));
    assert(nb == 8 + (if b.date.year < 0 { 1int } else { 0int }));
    assert(ta.len() == na + 8);
    assert(tb.len() == nb + 8);
    assert(ta.subrange(0, na) =~= a.date.compact());
    assert(tb.subrange(0, nb) =~= b.date.compact());
    lemma_date_compact_injective(a.date, b.date);
    assert(ta.subrange(na + 1, na + 3) =~= two_digits(a.hour as int));
    assert(tb.subrange(na + 1, na + 3) =~= two_digits(b.hour as int));
    assert(ta.subrange(na + 3, na + 5) =~= two_digits(a.minute as int));
    assert(tb.subrange(na + 3, na + 5) =~= two_digits(b.minute as int));
    assert(ta.subrange(na + 5, na + 7) =~= two_digits(a.second as int));
    assert(tb.subrange(na + 5, na + 7) =~= two_digits(b.second as int));
    lemma_two_digits_injective(a.hour as int, b.hour as int);
    lemma_two_digits_injective(a.minute as int, b.minute as int);
    lemma_two_digits_injective(a.second as int, b.second as int);
}

/// Calls `time`'s `Date + Duration::DAY`. The claim: for a valid date other
/// than the last representable one, the sum is the next calendar day.
#[verifier::external_body]
fn day_after(date: Date) -> (next: Date)
    requires
        date.wf(),
        !date.is_last(),
    ensures
        next == date.successor(),
        next.wf(),
{
    let month = time::Month::try_from(date.month).unwrap();
    let day = time::Date::from_calendar_date(date.year, month, date.day).unwrap();
    let next = day + time::Duration::DAY;
    Date { year: next.year(), month: u8::from(next.month()), day: next.day() }
}

/// Calls `time`'s `Date::format` with the description `[year][month][day]`.
/// The claim: the year is written with four digits, after a minus sign when
/// it is negative, then month and day with two digits each.
#[verifier::external_body]
fn compact_date_text(date: Date) -> (text: String)
    requires
        date.wf(),
    ensures
        text@ == date.compact(),
{
    let items = time::format_description::parse_borrowed::<2>("[year][month][day]").unwrap();
    let month = time::Month::try_from(date.month).unwrap();
    let day = time::Date::from_calendar_date(date.year, month, date.day).unwrap();
    day.format(&items).unwrap()
}

/// Calls `time`'s `OffsetDateTime::format` with the description
/// `[year][month][day]T[hour][minute][second]Z`. The claim: the date is
/// written as `Date::format` writes it, then `T`, then hour, minute and
/// second with two digits each, then `Z`.
#[verifier::external_body]
fn compact_stamp_text(stamp: Timestamp) -> (text: String)
    requires
        stamp.wf(),
    ensures
        text@ == stamp.compact(),
{
    let items = time::format_description::parse_borrowed::<2>(
        "[year][month][day]T[hour][minute][second]Z",
    ).unwrap();
    let month = time::Month::try_from(stamp.date.month).unwrap();
    let day = time::Date::from_calendar_date(stamp.date.year, month, stamp.date.day).unwrap();
    let clock = time::Time::from_hms(stamp.hour, stamp.minute, stamp.second).unwrap();
    time::PrimitiveDateTime::new(day, clock).assume_utc().format(&items).unwrap()
}

/// Calls `time`'s `OffsetDateTime::now_utc` and reads the instant's fields.
/// The claim holds of every instant: the date exists and the time of day is
/// in range.
#[verifier::external_body]
pub(crate) fn sample_now() -> (now: Timestamp)
    ensures
        now.wf(),
{
    let t = time::OffsetDateTime::now_utc();
    Timestamp {
        date: Date { year: t.year(), month: u8::from(t.month()), day: t.day() },
        hour: t.hour(),
        minute: t.minute(),
        second: t.second(),
    }
}

} // verus!
