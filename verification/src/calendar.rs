//! Calendar days of the proleptic Gregorian calendar and their day of the year.
//!
//! A `CivilDate` covers the same years as chrono's `NaiveDate` (from -262143 to
//! 262142). Its day of the year ("ordinal") counts from 1 on January 1st.
use vstd::prelude::*;

verus! {

/// The first year that a `CivilDate` can hold.
pub const MIN_YEAR: i32 = -262143;

/// The last year that a `CivilDate` can hold.
pub const MAX_YEAR: i32 = 262142;

/// A year is a leap year when 4 divides it, except for the years that 100 divides
/// and 400 does not.
pub open spec fn leap_year(y: int) -> bool {
    (y % 4 == 0 && y % 100 != 0) || y % 400 == 0
}

/// The number of days of month `m` (1 to 12).
pub open spec fn month_days(leap: bool, m: int) -> int {
    if m == 2 {
        if leap {
            29
        } else {
            28
        }
    } else if m == 4 || m == 6 || m == 9 || m == 11 {
        30
    } else {
        31
    }
}

/// The number of days of the months before month `m`.
pub open spec fn days_before_month(leap: bool, m: int) -> int
    decreases m,
{
    if m <= 1 {
        0
    } else {
        days_before_month(leap, m - 1) + month_days(leap, m - 1)
    }
}

/// The number of days of year `y`.
pub open spec fn year_days(y: int) -> int {
    if leap_year(y) {
        366
    } else {
        365
    }
}

/// `(y, m, d)` names a day of the calendar within the years a `CivilDate` covers.
pub open spec fn valid_date(y: int, m: int, d: int) -> bool {
    &&& MIN_YEAR <= y <= MAX_YEAR
    &&& 1 <= m <= 12
    &&& 1 <= d <= month_days(leap_year(y), m)
}

/// The day of the year of `(y, m, d)`, January 1st being 1.
pub open spec fn day_of_year(y: int, m: int, d: int) -> int {
    days_before_month(leap_year(y), m) + d
}

/// The days before each month: 0, 31, 59, 90, 120, 151, 181, 212, 243, 273, 304
/// and 334 in a common year, one more from March on in a leap year, and 365 or 366
/// before the month after December.
pub proof fn lemma_days_before_month_table(leap: bool)
    ensures
        days_before_month(leap, 1) == 0,
        days_before_month(leap, 2) == 31,
        days_before_month(leap, 3) == 59 + (if leap {
            1int
        } else {
            0
        }),
        days_before_month(leap, 4) == 90 + (if leap {
            1int
        } else {
            0
        }),
        days_before_month(leap, 5) == 120 + (if leap {
            1int
        } else {
            0
        }),
        days_before_month(leap, 6) == 151 + (if leap {
            1int
        } else {
            0
        }),
        days_before_month(leap, 7) == 181 + (if leap {
            1int
        } else {
            0
        }),
        days_before_month(leap, 8) == 212 + (if leap {
            1int
        } else {
            0
        }),
        days_before_month(leap, 9) == 243 + (if leap {
            1int
        } else {
            0
        }),
        days_before_month(leap, 10) == 273 + (if leap {
            1int
        } else {
            0
        }),
        days_before_month(leap, 11) == 304 + (if leap {
            1int
        } else {
            0
        }),
        days_before_month(leap, 12) == 334 + (if leap {
            1int
        } else {
            0
        }),
        days_before_month(leap, 13) == 365 + (if leap {
            1int
        } else {
            0
        }),
{
    assert(days_before_month(leap, 1) == 0);
    assert(days_before_month(leap, 2) == 31);
    assert(days_before_month(leap, 3) == days_before_month(leap, 2) + month_days(leap, 2));
    assert(days_before_month(leap, 4) == days_before_month(leap, 3) + 31);
    assert(days_before_month(leap, 5) == days_before_month(leap, 4) + 30);
    assert(days_before_month(leap, 6) == days_before_month(leap, 5) + 31);
    assert(days_before_month(leap, 7) == days_before_month(leap, 6) + 30);
    assert(days_before_month(leap, 8) == days_before_month(leap, 7) + 31);
    assert(days_before_month(leap, 9) == days_before_month(leap, 8) + 31);
    assert(days_before_month(leap, 10) == days_before_month(leap, 9) + 30);
    assert(days_before_month(leap, 11) == days_before_month(leap, 10) + 31);
    assert(days_before_month(leap, 12) == days_before_month(leap, 11) + 30);
    assert(days_before_month(leap, 13) == days_before_month(leap, 12) + 31);
}

/// A day of the proleptic Gregorian calendar.
#[derive(Clone, Copy)]
pub struct CivilDate {
    year: i32,
    month: u32,
    day: u32,
}

impl CivilDate {
    /// The fields name a day of the calendar within the covered years.
    #[verifier::type_invariant]
    spec fn well_formed(self) -> bool {
        valid_date(self.year as int, self.month as int, self.day as int)
    }
}

impl View for CivilDate {
    type V = (int, int, int);

    /// Year, month (1 to 12) and day of the month (from 1).
    closed spec fn view(&self) -> (int, int, int) {
        (self.year as int, self.month as int, self.day as int)
    }
}

/// Whether `year` is a leap year.
pub fn is_leap_year(year: i32) -> (r: bool)
    ensures
        r == leap_year(year as int),
{
    // Shifting by a multiple of 400 keeps every remainder below tested.
    let shifted: u64 = (year as i64 + 2_147_484_000i64) as u64;
    assert(shifted % 4 == year % 4);
    assert(shifted % 100 == year % 100);
    assert(shifted % 400 == year % 400);
    (shifted % 4 == 0 && shifted % 100 != 0) || shifted % 400 == 0
}

/// The number of days of `month` in `year`.
pub fn days_in_month(year: i32, month: u32) -> (r: u32)
    requires
        1 <= month <= 12,
    ensures
        r == month_days(leap_year(year as int), month as int),
{
    if month == 2 {
        if is_leap_year(year) {
            29
        } else {
            28
        }
    } else if month == 4 || month == 6 || month == 9 || month == 11 {
        30
    } else {
        31
    }
}

impl CivilDate {
    /// The date `year-month-day`, or `None` where no such day exists (month outside
    /// 1 to 12, day outside the month) or the year lies outside the covered range.
    pub fn new(year: i32, month: u32, day: u32) -> (r: Option<CivilDate>)
        ensures
            r is Some <==> valid_date(year as int, month as int, day as int),
            r matches Some(date) ==> date@ == (year as int, month as int, day as int),
    {
        if year < MIN_YEAR || year > MAX_YEAR || month < 1 || month > 12 || day < 1 {
            return None;
        }
        if day > days_in_month(year, month) {
            return None;
        }
        Some(CivilDate { year, month, day })
    }

    /// The year.
    pub fn year(&self) -> (r: i32)
        ensures
            r == self@.0,
            valid_date(self@.0, self@.1, self@.2),
    {
        proof {
            use_type_invariant(self);
        }
        self.year
    }

    /// The month, from 1 (January) to 12.
    pub fn month(&self) -> (r: u32)
        ensures
            r == self@.1,
            1 <= r <= 12,
            valid_date(self@.0, self@.1, self@.2),
    {
        proof {
            use_type_invariant(self);
        }
        self.month
    }

    /// The day of the month, from 1.
    pub fn day(&self) -> (r: u32)
        ensures
            r == self@.2,
            1 <= r <= 31,
            valid_date(self@.0, self@.1, self@.2),
    {
        proof {
            use_type_invariant(self);
        }
        self.day
    }

    /// The day of the year, January 1st being 1.
    pub fn ordinal(&self) -> (r: u32)
        ensures
            r == day_of_year(self@.0, self@.1, self@.2),
            1 <= r <= year_days(self@.0),
            valid_date(self@.0, self@.1, self@.2),
    {
        proof {
            use_type_invariant(self);
            lemma_day_of_year_in_range(self@.0, self@.1, self@.2);
        }
        let leap = is_leap_year(self.year);
        proof {
            lemma_days_before_month_table(leap);
        }
        let before: u32 = match self.month {
            1 => 0,
            2 => 31,
            3 => 59,
            4 => 90,
            5 => 120,
            6 => 151,
            7 => 181,
            8 => 212,
            9 => 243,
            10 => 273,
            11 => 304,
            _ => 334,
        };
        let correction: u32 = if leap && self.month > 2 {
            1
        } else {
            0
        };
        before + correction + self.day
    }
}

/// The day of the year of a valid date lies between 1 and the number of days of
/// its year.
pub proof fn lemma_day_of_year_in_range(y: int, m: int, d: int)
    requires
        valid_date(y, m, d),
    ensures
        1 <= day_of_year(y, m, d) <= year_days(y),
{
    lemma_days_before_month_table(leap_year(y));
}

/// Within a year, a later day has a larger day of the year: the day of the year
/// tells the days of a year apart.
pub proof fn lemma_day_of_year_increasing(y: int, m1: int, d1: int, m2: int, d2: int)
    requires
        valid_date(y, m1, d1),
        valid_date(y, m2, d2),
        m1 < m2 || (m1 == m2 && d1 < d2),
    ensures
        day_of_year(y, m1, d1) < day_of_year(y, m2, d2),
{
    lemma_days_before_month_table(leap_year(y));
}

/// The day after the last day of a month is the first of the next month, and it
/// comes one day of the year later.
pub proof fn lemma_day_of_year_next_month(y: int, m: int)
    requires
        MIN_YEAR <= y <= MAX_YEAR,
        1 <= m < 12,
    ensures
        day_of_year(y, m + 1, 1) == day_of_year(y, m, month_days(leap_year(y), m)) + 1,
{
}

/// The last day of the year, December 31st, has the day of the year `year_days(y)`.
pub proof fn lemma_day_of_year_last_day(y: int)
    ensures
        day_of_year(y, 12, 31) == year_days(y),
{
    lemma_days_before_month_table(leap_year(y));
}

/// Every day count from 1 to the length of the year belongs to a day of that year.
pub proof fn lemma_day_of_year_onto(y: int, n: int)
    requires
        MIN_YEAR <= y <= MAX_YEAR,
        1 <= n <= year_days(y),
    ensures
        exists|m: int, d: int| valid_date(y, m, d) && #[trigger] day_of_year(y, m, d) == n,
{
    let leap = leap_year(y);
    lemma_days_before_month_table(leap);
    let e: int = if leap {
        1
    } else {
        0
    };
    let m: int = if n <= 31 {
        1
    } else if n <= 59 + e {
        2
    } else if n <= 90 + e {
        3
    } else if n <= 120 + e {
        4
    } else if n <= 151 + e {
        5
    } else if n <= 181 + e {
        6
    } else if n <= 212 + e {
        7
    } else if n <= 243 + e {
        8
    } else if n <= 273 + e {
        9
    } else if n <= 304 + e {
        10
    } else if n <= 334 + e {
        11
    } else {
        12
    };
    let d = n - days_before_month(leap, m);
    assert(valid_date(y, m, d) && day_of_year(y, m, d) == n);
}

/// In a common year the day of the year is the month's start from
/// `month_start_days` plus the day of the month.
pub proof fn lemma_day_of_year_in_common_year(y: int, m: int, d: int)
    requires
        !leap_year(y),
    ensures
        day_of_year(y, m, d) == days_before_month(false, m) + d,
{
}

/// The Gregorian rule, for every year: a year is a leap year when 4 divides it and
/// 100 does not, or when 400 divides it; no other year is.
pub proof fn lemma_leap_year_rule(y: int)
    ensures
        (y % 4 == 0 && y % 100 != 0) ==> leap_year(y),
        y % 400 == 0 ==> leap_year(y),
        y % 4 != 0 ==> !leap_year(y),
        (y % 100 == 0 && y % 400 != 0) ==> !leap_year(y),
{
}

/// Leap years repeat every 400 years.
pub proof fn lemma_leap_years_repeat(y: int)
    ensures
        leap_year(y + 400) == leap_year(y),
{
    vstd::arithmetic::div_mod::lemma_mod_multiples_vanish(100, y, 4);
    vstd::arithmetic::div_mod::lemma_mod_multiples_vanish(4, y, 100);
    vstd::arithmetic::div_mod::lemma_mod_multiples_vanish(1, y, 400);
    assert(4 * 100 + y == y + 400);
    assert(100 * 4 + y == y + 400);
    assert(400 * 1 + y == y + 400);
}

/// February 29th exists exactly in the years of the Gregorian leap rule; every
/// other month has the same length in all years, 30 days for April, June,
/// September and November and 31 for the rest.
pub proof fn lemma_month_lengths(y: int, m: int)
    requires
        1 <= m <= 12,
    ensures
        m == 2 ==> (month_days(leap_year(y), m) == 29 <==> (y % 4 == 0 && y % 100 != 0) || y
            % 400 == 0),
        m == 2 ==> 28 <= month_days(leap_year(y), m) <= 29,
        (m == 4 || m == 6 || m == 9 || m == 11) ==> month_days(leap_year(y), m) == 30,
        (m == 1 || m == 3 || m == 5 || m == 7 || m == 8 || m == 10 || m == 12) ==> month_days(
            leap_year(y),
            m,
        ) == 31,
{
}

/// Within the covered years, February 29th is a valid date exactly in the years of
/// the Gregorian leap rule.
pub proof fn lemma_february_29_exists(y: int)
    requires
        MIN_YEAR <= y <= MAX_YEAR,
    ensures
        valid_date(y, 2, 29) <==> ((y % 4 == 0 && y % 100 != 0) || y % 400 == 0),
        !valid_date(y, 2, 30),
{
}

/// January 1st is day 1 of every year, and December 31st is day 366 in the years of
/// the Gregorian leap rule and day 365 in all others.
pub proof fn lemma_year_ends(y: int)
    ensures
        day_of_year(y, 1, 1) == 1,
        day_of_year(y, 12, 31) == (if (y % 4 == 0 && y % 100 != 0) || y % 400 == 0 {
            366int
        } else {
            365int
        }),
        year_days(y) == day_of_year(y, 12, 31),
{
    lemma_days_before_month_table(leap_year(y));
}

/// The next day of the same month comes one day of the year later.
pub proof fn lemma_day_of_year_next_day(y: int, m: int, d: int)
    ensures
        day_of_year(y, m, d + 1) == day_of_year(y, m, d) + 1,
{
}

/// The first day of each month in a common (non-leap) year, counted from 0 for
/// January 1st.
pub fn month_start_days() -> (r: [u32; 12])
    ensures
        forall|i: int| 0 <= i < 12 ==> #[trigger] r@[i] == days_before_month(false, i + 1),
{
    let month_lengths: [u32; 12] = [31, 28, 31, 30, 31, 30, 31, 31, 30, 31, 30, 31];
    let mut month_starts: [u32; 12] = [0u32; 12];
    let mut acc: u32 = 0;
    let mut i: usize = 0;
    assert forall|j: int| 0 <= j < 12 implies #[trigger] month_lengths@[j] == month_days(
        false,
        j + 1,
    ) by {
        if j == 0 {
        } else if j == 1 {
        } else if j == 2 {
        } else if j == 3 {
        } else if j == 4 {
        } else if j == 5 {
        } else if j == 6 {
        } else if j == 7 {
        } else if j == 8 {
        } else if j == 9 {
        } else if j == 10 {
        } else {
        }
    }
    while i < 12
        invariant
            i <= 12,
            forall|j: int| 0 <= j < 12 ==> #[trigger] month_lengths@[j] == month_days(false, j + 1),
            month_starts@.len() == 12,
            acc == days_before_month(false, i + 1),
            acc <= 31 * i,
            forall|j: int|
                0 <= j < i ==> #[trigger] month_starts@[j] == days_before_month(false, j + 1),
        decreases 12 - i,
    {
        month_starts[i] = acc;
        assert(days_before_month(false, i + 2) == days_before_month(false, i + 1) + month_days(
            false,
            i + 1,
        ));
        acc = acc + month_lengths[i];
        i = i + 1;
    }
    month_starts
}

} // verus!
