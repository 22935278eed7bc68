//! Calendar timestamps with a resolution of one second.

use vstd::prelude::*;

verus! {

/// Seconds in a day.
pub const SECONDS_PER_DAY: u64 = 86400;

/// The first year that a timestamp cannot hold.
pub const YEAR_LIMIT: u16 = 10000;

/// Days from the first day of year 0 to the first day of year 1970.
pub const UNIX_EPOCH_DAY: u64 = 719528;

/// Days from the first day of year 0 to the first day of year 10000.
pub const DAY_LIMIT: u64 = 3652425;

/// Whether `year` is a leap year of the proleptic Gregorian calendar.
pub open spec fn is_leap_year(year: int) -> bool {
    year % 4 == 0 && (year % 100 != 0 || year % 400 == 0)
}

/// Number of days in `year`.
pub open spec fn days_in_year(year: int) -> int {
    if is_leap_year(year) {
        366
    } else {
        365
    }
}

/// Number of days in month `month` (1 to 12) of `year`.
pub open spec fn days_in_month(year: int, month: int) -> int {
    if month == 2 {
        if is_leap_year(year) {
            29
        } else {
            28
        }
    } else if month == 4 || month == 6 || month == 9 || month == 11 {
        30
    } else {
        31
    }
}

/// Number of days in the years `0 .. year`.
pub open spec fn days_before_year(year: int) -> int
    decreases year,
{
    if year <= 0 {
        0
    } else {
        days_before_year(year - 1) + days_in_year(year - 1)
    }
}

/// Number of days in the months `1 .. month` of `year`.
pub open spec fn days_before_month(year: int, month: int) -> int
    decreases month,
{
    if month <= 1 {
        0
    } else {
        days_before_month(year, month - 1) + days_in_month(year, month - 1)
    }
}

/// The days before a year, counted in closed form: 365 for each year and one
/// more for each leap year among them.
pub proof fn lemma_days_before_year_closed(year: int)
    requires
        0 <= year,
    ensures
        days_before_year(year) == 365 * year + (year + 3) / 4 - (year + 99) / 100 + (year + 399)
            / 400,
    decreases year,
{
    if year > 0 {
        lemma_days_before_year_closed(year - 1);
    }
}

/// Later years start on later days.
pub proof fn lemma_days_before_year_monotonic(a: int, b: int)
    requires
        0 <= a <= b,
    ensures
        days_before_year(a) <= days_before_year(b),
        a < b ==> days_before_year(a + 1) <= days_before_year(b),
    decreases b - a,
{
    if a < b {
        lemma_days_before_year_monotonic(a, b - 1);
    }
}

/// The twelve months of a year hold all its days.
pub proof fn lemma_months_fill_year(year: int)
    ensures
        days_before_month(year, 13) == days_in_year(year),
{
    reveal_with_fuel(days_before_month, 14);
}

/// Later months start on later days.
pub proof fn lemma_days_before_month_monotonic(year: int, a: int, b: int)
    requires
        1 <= a <= b,
    ensures
        days_before_month(year, a) <= days_before_month(year, b),
        a < b ==> days_before_month(year, a + 1) <= days_before_month(year, b),
    decreases b - a,
{
    if a < b {
        lemma_days_before_month_monotonic(year, a, b - 1);
    }
}

/// A moment of the proleptic Gregorian calendar, without a time zone.
#[derive(Clone, Copy, Debug, PartialEq, Eq, Structural)]
pub struct Timestamp {
    pub year: u16,
    pub month: u8,
    pub day: u8,
    pub hour: u8,
    pub minute: u8,
    pub second: u8,
}

/// Whether the six numbers name a moment that exists.
pub open spec fn is_valid_moment(
    year: int,
    month: int,
    day: int,
    hour: int,
    minute: int,
    second: int,
) -> bool {
    &&& 0 <= year < YEAR_LIMIT
    &&& 1 <= month <= 12
    &&& 1 <= day <= days_in_month(year, month)
    &&& 0 <= hour < 24
    &&& 0 <= minute < 60
    &&& 0 <= second < 60
}

/// The day of a moment lies within the days of its year.
pub proof fn lemma_day_within_year(t: Timestamp)
    requires
        t.wf(),
    ensures
        days_before_year(t.year as int) <= t.day_number() < days_before_year(t.year + 1),
{
    lemma_months_fill_year(t.year as int);
    lemma_days_before_month_monotonic(t.year as int, 1, t.month as int);
    lemma_days_before_month_monotonic(t.year as int, t.month + 1, 13);
}

/// No two moments lie the same number of seconds after the start of year 0.
pub proof fn lemma_seconds_injective(a: Timestamp, b: Timestamp)
    requires
        a.wf(),
        b.wf(),
        a.seconds() == b.seconds(),
    ensures
        a == b,
{
    assert(a.day_number() == b.day_number());
    lemma_day_within_year(a);
    lemma_day_within_year(b);
    if a.year < b.year {
        lemma_days_before_year_monotonic(a.year as int, b.year as int);
    }
    if b.year < a.year {
        lemma_days_before_year_monotonic(b.year as int, a.year as int);
    }
    assert(a.year == b.year);
    if a.month < b.month {
        lemma_days_before_month_monotonic(a.year as int, a.month as int, b.month as int);
    }
    if b.month < a.month {
        lemma_days_before_month_monotonic(a.year as int, b.month as int, a.month as int);
    }
}

fn leap_year(year: u16) -> (r: bool)
    ensures
        r == is_leap_year(year as int),
{
    year % 4 == 0 && (year % 100 != 0 || year % 400 == 0)
}

fn month_length(year: u16, month: u8) -> (r: u8)
    ensures
        r == days_in_month(year as int, month as int),
        28 <= r <= 31,
{
    if month == 2 {
        if leap_year(year) {
            29
        } else {
            28
        }
    } else if month == 4 || month == 6 || month == 9 || month == 11 {
        30
    } else {
        31
    }
}

fn days_to_year(year: u16) -> (r: u64)
    requires
        year <= YEAR_LIMIT,
    ensures
        r == days_before_year(year as int),
        r <= 366 * year,
{
    let y: u64 = year as u64;
    proof {
        lemma_days_before_year_closed(year as int);
    }
    365 * y + (y + 3) / 4 - (y + 99) / 100 + (y + 399) / 400
}

fn days_to_month(year: u16, month: u8) -> (r: u64)
    requires
        1 <= month <= 12,
    ensures
        r == days_before_month(year as int, month as int),
        r <= 31 * (month - 1),
{
    let mut total: u64 = 0;
    let mut m: u8 = 1;
    while m < month
        invariant
            1 <= m <= month <= 12,
            total == days_before_month(year as int, m as int),
            total <= 31 * (m - 1),
        decreases month - m,
    {
        total = total + month_length(year, m) as u64;
        m = m + 1;
    }
    total
}

impl Timestamp {
    /// Whether the fields name a moment that exists.
    pub open spec fn wf(&self) -> bool {
        is_valid_moment(
            self.year as int,
            self.month as int,
            self.day as int,
            self.hour as int,
            self.minute as int,
            self.second as int,
        )
    }

    /// Days from the first day of year 0 to the day of this moment.
    pub open spec fn day_number(&self) -> int {
        days_before_year(self.year as int) + days_before_month(self.year as int, self.month as int)
            + self.day - 1
    }

    /// Seconds from the start of year 0 to this moment.
    pub open spec fn seconds(&self) -> int {
        self.day_number() * 86400 + self.hour * 3600 + self.minute * 60 + self.second
    }

    /// Seconds from the start of 1970 to this moment; negative before it.
    pub open spec fn unix_seconds(&self) -> int {
        self.seconds() - days_before_year(1970) * 86400
    }

    /// The moment with the given fields, if there is one.
    pub fn new(year: u16, month: u8, day: u8, hour: u8, minute: u8, second: u8) -> (r: Option<
        Timestamp,
    >)
        ensures
            r is Some <==> is_valid_moment(
                year as int,
                month as int,
                day as int,
                hour as int,
                minute as int,
                second as int,
            ),
            r matches Some(t) ==> t == (Timestamp { year, month, day, hour, minute, second }),
    {
        if year < YEAR_LIMIT && 1 <= month && month <= 12 && 1 <= day && day <= month_length(
            year,
            month,
        ) && hour < 24 && minute < 60 && second < 60 {
            Some(Timestamp { year, month, day, hour, minute, second })
        } else {
            None
        }
    }

    /// Seconds from the start of year 0 to this moment.
    pub fn to_seconds(&self) -> (r: u64)
        requires
            self.wf(),
        ensures
            r == self.seconds(),
            r < DAY_LIMIT * SECONDS_PER_DAY,
    {
        let days: u64 = days_to_year(self.year) + days_to_month(self.year, self.month) + (
        self.day as u64 - 1);
        proof {
            lemma_months_fill_year(self.year as int);
            lemma_days_before_month_monotonic(self.year as int, self.month as int + 1, 13);
            lemma_days_before_year_monotonic(self.year as int + 1, 10000);
            lemma_days_before_year_closed(10000);
        }
        days * SECONDS_PER_DAY + self.hour as u64 * 3600 + self.minute as u64 * 60
            + self.second as u64
    }

    /// The moment that lies `total` seconds after the start of year 0, unless
    /// it falls in year 10000 or later.
    pub fn from_seconds(total: u64) -> (r: Option<Timestamp>)
        ensures
            r is Some <==> total < DAY_LIMIT * SECONDS_PER_DAY,
            r matches Some(t) ==> t.wf() && t.seconds() == total,
    {
        let days: u64 = total / SECONDS_PER_DAY;
        let rest: u64 = total % SECONDS_PER_DAY;
        if days >= DAY_LIMIT {
            return None;
        }
        proof {
            lemma_days_before_year_closed(10000);
            lemma_days_before_year_closed((days / 366) as int);
        }
        let mut year: u16 = (days / 366) as u16;
        while days_to_year(year + 1) <= days
            invariant
                year < YEAR_LIMIT,
                days_before_year(year as int) <= days,
                days < days_before_year(10000),
            decreases YEAR_LIMIT - year,
        {
            year = year + 1;
        }
        let day_of_year: u64 = days - days_to_year(year);
        let mut month: u8 = 1;
        let mut before: u64 = 0;
        while month < 12 && before + month_length(year, month) as u64 <= day_of_year
            invariant
                1 <= month <= 12,
                before == days_before_month(year as int, month as int),
                before <= day_of_year < 366,
            decreases 12 - month,
        {
            before = before + month_length(year, month) as u64;
            month = month + 1;
        }
        proof {
            lemma_months_fill_year(year as int);
            if month == 12 {
                assert(days_before_month(year as int, 13) == before + 31);
            }
        }
        let day: u8 = (day_of_year - before + 1) as u8;
        let hour: u8 = (rest / 3600) as u8;
        let minute: u8 = (rest % 3600 / 60) as u8;
        let second: u8 = (rest % 60) as u8;
        Some(Timestamp { year, month, day, hour, minute, second })
    }

    /// Seconds from the start of 1970 to this moment; negative before it.
    pub fn to_unix_seconds(&self) -> (r: i64)
        requires
            self.wf(),
        ensures
            r == self.unix_seconds(),
    {
        proof {
            lemma_days_before_year_closed(1970);
        }
        let since_origin: u64 = self.to_seconds();
        since_origin as i64 - (UNIX_EPOCH_DAY * SECONDS_PER_DAY) as i64
    }

    /// The moment that lies `secs` seconds after the start of 1970 (before
    /// it, where `secs` is negative), unless it falls outside the years 0 to
    /// 9999.
    pub fn from_unix_seconds(secs: i64) -> (r: Option<Timestamp>)
        ensures
            r is Some <==> 0 <= secs + UNIX_EPOCH_DAY * SECONDS_PER_DAY < DAY_LIMIT
                * SECONDS_PER_DAY,
            r matches Some(t) ==> t.wf() && t.unix_seconds() == secs,
    {
        proof {
            lemma_days_before_year_closed(1970);
        }
        let shift: i64 = (UNIX_EPOCH_DAY * SECONDS_PER_DAY) as i64;
        if secs < -shift || secs >= (DAY_LIMIT * SECONDS_PER_DAY) as i64 - shift {
            return None;
        }
        Timestamp::from_seconds((secs + shift) as u64)
    }
}

} // verus!
