//! Serial-date arithmetic on the 1900 epoch.
//!
//! Dates are stored as integer day counts where day 1 is the first of
//! January 1900, with the usual spreadsheet convention that 1900 counts as a
//! leap year.  The converters here are exact inverses of one another on the
//! valid range.

use vstd::prelude::*;

verus! {

/// A calendar date.
#[derive(Debug, Clone, Copy, PartialEq, Eq, Structural)]
pub struct EasyDate {
    pub year: u32,
    pub month: u32,
    pub day: u32,
}

pub open spec fn spec_is_leap(y: int) -> bool {
    y == 1900 || (y % 4 == 0 && (y % 100 != 0 || y % 400 == 0))
}

pub open spec fn spec_days_in_month(y: int, m: int) -> int {
    if m == 2 {
        if spec_is_leap(y) {
            29
        } else {
            28
        }
    } else if m == 4 || m == 6 || m == 9 || m == 11 {
        30
    } else {
        31
    }
}

/// Days in the months of year `y` strictly before month `m`.
pub open spec fn spec_days_before_month(y: int, m: int) -> int
    decreases m,
{
    if m <= 1 {
        0
    } else {
        spec_days_before_month(y, m - 1) + spec_days_in_month(y, m - 1)
    }
}

pub open spec fn spec_days_in_year(y: int) -> int {
    spec_days_before_month(y, 13)
}

/// Days in the years from 1900 strictly before year `y`.
pub open spec fn spec_days_before_year(y: int) -> int
    decreases y,
{
    if y <= 1900 {
        0
    } else {
        spec_days_before_year(y - 1) + spec_days_in_year(y - 1)
    }
}

/// The serial number of a date: day 1 is 1900-01-01.
pub open spec fn spec_serial(y: int, m: int, d: int) -> int {
    spec_days_before_year(y) + spec_days_before_month(y, m) + d
}

pub open spec fn spec_valid_date(y: int, m: int, d: int) -> bool {
    1900 <= y <= 9999 && 1 <= m <= 12 && 1 <= d <= spec_days_in_month(y, m)
}

/// Lexicographic order on dates.
pub open spec fn spec_date_lt(a: EasyDate, b: EasyDate) -> bool {
    ||| a.year < b.year
    ||| (a.year == b.year && a.month < b.month)
    ||| (a.year == b.year && a.month == b.month && a.day < b.day)
}

/// The month count of a date: months from year zero.
pub open spec fn spec_months(d: EasyDate) -> int {
    d.year * 12 + d.month - 1
}

/// The date `delta` months away, keeping the day but clamping it to the
/// target month's length.
pub open spec fn spec_add_months(d: EasyDate, delta: int) -> EasyDate {
    let t = spec_months(d) + delta;
    let y = t / 12;
    let m = t % 12 + 1;
    let dim = spec_days_in_month(y, m);
    EasyDate {
        year: y as u32,
        month: m as u32,
        day: if d.day <= dim {
            d.day
        } else {
            dim as u32
        },
    }
}

pub fn days_in_month(year: u32, month: u32) -> (r: u32)
    requires
        1 <= month <= 12,
    ensures
        r == spec_days_in_month(year as int, month as int),
        28 <= r <= 31,
{
    if month == 2 {
        let leap = year == 1900 || (year % 4 == 0 && (year % 100 != 0 || year % 400 == 0));
        if leap {
            29
        } else {
            28
        }
    } else if month == 4 || month == 6 || month == 9 || month == 11 {
        30
    } else {
        31
    }
}

/// Serial numbers grow with years.
pub proof fn lemma_year_bounds(y: int)
    requires
        1900 <= y,
    ensures
        spec_days_before_year(y) >= 365 * (y - 1900),
        spec_days_before_year(y) <= 366 * (y - 1900),
    decreases y,
{
    if y > 1900 {
        lemma_year_bounds(y - 1);
        lemma_days_in_year_value(y - 1);
    }
}

/// The serial number of a calendar date, when the date is valid.
pub fn get_serial_num_by_date_1900(year: u32, month: u32, day: u32) -> (r: Option<u32>)
    ensures
        r == (if spec_valid_date(year as int, month as int, day as int) {
            Some(spec_serial(year as int, month as int, day as int) as u32)
        } else {
            Option::<u32>::None
        }),
        r is Some ==> 1 <= r.unwrap() <= 2970000,
        r is Some ==> 1 <= spec_serial(year as int, month as int, day as int) <= 2970000,
{
    if !(1900 <= year && year <= 9999 && 1 <= month && month <= 12) {
        return None;
    }
    if !(1 <= day && day <= days_in_month(year, month)) {
        return None;
    }
    let mut acc: u32 = 0;
    let mut y: u32 = 1900;
    while y < year
        invariant
            1900 <= y <= year <= 9999,
            acc == spec_days_before_year(y as int),
            acc <= 366 * (y - 1900),
        decreases year - y,
    {
        let leap = y == 1900 || (y % 4 == 0 && (y % 100 != 0 || y % 400 == 0));
        let len: u32 = if leap {
            366
        } else {
            365
        };
        proof {
            lemma_days_in_year_value(y as int);
        }
        acc = acc + len;
        y = y + 1;
    }
    let mut m: u32 = 1;
    while m < month
        invariant
            1 <= m <= month <= 12,
            1900 <= year <= 9999,
            acc == spec_days_before_year(year as int) + spec_days_before_month(year as int, m as int),
            acc <= 366 * (year - 1900) + 366,
        decreases month - m,
    {
        proof {
            lemma_dbm_monotone(year as int, m as int + 1, 13);
            lemma_days_in_year_value(year as int);
            lemma_year_bounds(year as int);
        }
        acc = acc + days_in_month(year, m);
        m = m + 1;
    }
    proof {
        lemma_year_bounds(year as int);
        lemma_dbm_monotone(year as int, 1, month as int);
    }
    Some(acc + day)
}

/// A year's length is 366 exactly in leap years.
pub proof fn lemma_days_in_year_value(y: int)
    ensures
        spec_days_in_year(y) == if spec_is_leap(y) {
            366int
        } else {
            365int
        },
{
    reveal_with_fuel(spec_days_before_month, 14);
}

/// Month prefixes grow with the month.
pub proof fn lemma_dbm_monotone(y: int, a: int, b: int)
    requires
        1 <= a <= b <= 13,
    ensures
        spec_days_before_month(y, a) <= spec_days_before_month(y, b),
    decreases b - a,
{
    if a < b {
        lemma_dbm_monotone(y, a, b - 1);
    }
}

/// Any day of the year sits within the year's length.
pub proof fn lemma_day_in_year(y: int, m: int, d: int)
    requires
        1 <= m <= 12,
        1 <= d <= spec_days_in_month(y, m),
    ensures
        spec_days_before_month(y, m) + d <= spec_days_in_year(y),
{
    lemma_dbm_monotone(y, m + 1, 13);
    assert(spec_days_before_month(y, m + 1) == spec_days_before_month(y, m) + spec_days_in_month(
        y,
        m,
    ));
}

/// Year prefixes grow with the year.
pub proof fn lemma_dby_monotone(a: int, b: int)
    requires
        a <= b,
    ensures
        spec_days_before_year(a) <= spec_days_before_year(b),
    decreases b - a,
{
    if a < b {
        lemma_dby_monotone(a, b - 1);
        lemma_days_in_year_value(b - 1);
    }
}

/// No valid date's serial exceeds the serial of 9999-12-31.
pub proof fn lemma_serial_le_max(y: int, m: int, d: int)
    requires
        spec_valid_date(y, m, d),
    ensures
        1 <= spec_serial(y, m, d) <= spec_serial(9999, 12, 31),
{
    lemma_day_in_year(y, m, d);
    lemma_dbm_monotone(y, 1, m);
    lemma_dby_monotone(1900, y);
    if y < 9999 {
        assert(spec_days_before_year(y + 1) == spec_days_before_year(y) + spec_days_in_year(y));
        lemma_dby_monotone(y + 1, 9999);
        assert(spec_serial(9999, 12, 31) == spec_days_before_year(9999) + spec_days_before_month(
            9999,
            12,
        ) + 31);
        assert(spec_days_before_month(9999, 13) == spec_days_before_month(9999, 12)
            + spec_days_in_month(9999, 12));
        lemma_dbm_monotone(9999, 1, 12);
        lemma_days_in_year_value(9999);
    } else {
        assert(spec_days_before_month(y, 13) == spec_days_before_month(y, 12)
            + spec_days_in_month(y, 12));
    }
}

/// The calendar date of a serial number: the exact inverse of the serial
/// computation on the valid range.
pub fn get_date_by_serial_num_1900(serial: u32) -> (r: EasyDate)
    requires
        1 <= serial,
        serial <= spec_serial(9999, 12, 31),
    ensures
        spec_valid_date(r.year as int, r.month as int, r.day as int),
        spec_serial(r.year as int, r.month as int, r.day as int) == serial,
{
    let mut y: u32 = 1900;
    let mut rem: u32 = serial;
    loop
        invariant
            1900 <= y <= 9999,
            1 <= rem,
            rem + spec_days_before_year(y as int) == serial,
            serial <= spec_serial(9999, 12, 31),
        ensures
            1900 <= y <= 9999,
            1 <= rem,
            rem + spec_days_before_year(y as int) == serial,
            rem <= spec_days_in_year(y as int),
        decreases 9999 - y,
    {
        proof {
            lemma_days_in_year_value(y as int);
        }
        let leap = y == 1900 || (y % 4 == 0 && (y % 100 != 0 || y % 400 == 0));
        let len: u32 = if leap {
            366
        } else {
            365
        };
        if rem > len {
            proof {
                if y == 9999 {
                    assert(spec_days_before_month(9999int, 13) == spec_days_before_month(9999, 12)
                        + spec_days_in_month(9999, 12));
                    assert(false);
                }
            }
            rem = rem - len;
            y = y + 1;
        } else {
            break ;
        }
    }
    let mut m: u32 = 1;
    loop
        invariant
            1 <= m <= 12,
            1 <= rem,
            rem + spec_days_before_year(y as int) + spec_days_before_month(y as int, m as int)
                == serial,
            rem + spec_days_before_month(y as int, m as int) <= spec_days_in_year(y as int),
            1900 <= y <= 9999,
        ensures
            1 <= m <= 12,
            1 <= rem,
            rem + spec_days_before_year(y as int) + spec_days_before_month(y as int, m as int)
                == serial,
            rem <= spec_days_in_month(y as int, m as int),
            1900 <= y <= 9999,
        decreases 12 - m,
    {
        let dim = days_in_month(y, m);
        if rem > dim {
            proof {
                if m == 12 {
                    assert(spec_days_in_year(y as int) == spec_days_before_month(y as int, 12)
                        + spec_days_in_month(y as int, 12));
                    assert(false);
                }
            }
            rem = rem - dim;
            m = m + 1;
        } else {
            break ;
        }
    }
    EasyDate { year: y, month: m, day: rem }
}



impl EasyDate {
    /// The date read off a serial number.
    pub fn from_serial(serial: u32) -> (r: EasyDate)
        requires
            1 <= serial,
            serial <= spec_serial(9999, 12, 31),
        ensures
            spec_valid_date(r.year as int, r.month as int, r.day as int),
            spec_serial(r.year as int, r.month as int, r.day as int) == serial,
    {
        get_date_by_serial_num_1900(serial)
    }

    /// Strictly-before, by calendar order.
    pub fn lt(&self, other: &EasyDate) -> (r: bool)
        ensures
            r == spec_date_lt(*self, *other),
    {
        if self.year != other.year {
            self.year < other.year
        } else if self.month != other.month {
            self.month < other.month
        } else {
            self.day < other.day
        }
    }

    pub fn is_last_date_of_this_month(&self) -> (r: bool)
        requires
            1 <= self.month <= 12,
        ensures
            r == (self.day == spec_days_in_month(self.year as int, self.month as int)),
    {
        self.day == days_in_month(self.year, self.month)
    }

    pub fn last_day_of_this_month(&self) -> (r: EasyDate)
        requires
            1 <= self.month <= 12,
        ensures
            r.year == self.year,
            r.month == self.month,
            r.day == spec_days_in_month(self.year as int, self.month as int),
    {
        EasyDate {
            year: self.year,
            month: self.month,
            day: days_in_month(self.year, self.month),
        }
    }

    /// The date `delta` months away, clamping the day to the target month.
    pub fn add_delta_months(&mut self, delta: i64)
        requires
            1 <= old(self).month <= 12,
            1800 * 12 <= spec_months(*old(self)) + delta <= 12000 * 12,
        ensures
            *final(self) == spec_add_months(*old(self), delta as int),
    {
        let t: i64 = (self.year as i64) * 12 + (self.month as i64) - 1 + delta;
        let y: i64 = t / 12;
        let m: i64 = t % 12 + 1;
        let yy: u32 = y as u32;
        let mm: u32 = m as u32;
        let dim = days_in_month(yy, mm);
        let dd: u32 = if self.day <= dim {
            self.day
        } else {
            dim
        };
        self.year = yy;
        self.month = mm;
        self.day = dd;
    }
}

/// Calendar order agrees with serial order on valid dates.
pub proof fn lemma_serial_strict_mono(a: EasyDate, b: EasyDate)
    requires
        spec_valid_date(a.year as int, a.month as int, a.day as int),
        spec_valid_date(b.year as int, b.month as int, b.day as int),
        spec_date_lt(a, b),
    ensures
        spec_serial(a.year as int, a.month as int, a.day as int) < spec_serial(
            b.year as int,
            b.month as int,
            b.day as int,
        ),
{
    if a.year < b.year {
        lemma_day_in_year(a.year as int, a.month as int, a.day as int);
        assert(spec_days_before_year(a.year + 1) == spec_days_before_year(a.year as int)
            + spec_days_in_year(a.year as int));
        lemma_dby_monotone(a.year as int + 1, b.year as int);
        lemma_dbm_monotone(b.year as int, 1, b.month as int);
    } else if a.month < b.month {
        assert(spec_days_before_month(a.year as int, a.month as int + 1) == spec_days_before_month(
            a.year as int,
            a.month as int,
        ) + spec_days_in_month(a.year as int, a.month as int));
        lemma_dbm_monotone(a.year as int, a.month as int + 1, b.month as int);
    }
}

/// Calendar order and serial order coincide on valid dates.
pub proof fn lemma_date_lt_iff_serial_lt(a: EasyDate, b: EasyDate)
    requires
        spec_valid_date(a.year as int, a.month as int, a.day as int),
        spec_valid_date(b.year as int, b.month as int, b.day as int),
    ensures
        spec_date_lt(a, b) <==> spec_serial(a.year as int, a.month as int, a.day as int)
            < spec_serial(b.year as int, b.month as int, b.day as int),
{
    if spec_date_lt(a, b) {
        lemma_serial_strict_mono(a, b);
    } else if spec_date_lt(b, a) {
        lemma_serial_strict_mono(b, a);
    } else {
        assert(a == b);
    }
}

/// Two valid dates with one serial are the same date.
pub proof fn lemma_serial_unique(a: EasyDate, b: EasyDate)
    requires
        spec_valid_date(a.year as int, a.month as int, a.day as int),
        spec_valid_date(b.year as int, b.month as int, b.day as int),
        spec_serial(a.year as int, a.month as int, a.day as int) == spec_serial(
            b.year as int,
            b.month as int,
            b.day as int,
        ),
    ensures
        a == b,
{
    lemma_date_lt_iff_serial_lt(a, b);
    lemma_date_lt_iff_serial_lt(b, a);
    assert(!spec_date_lt(a, b) && !spec_date_lt(b, a));
}

/// Stepping a date by months shifts its month count by exactly that amount
/// and keeps it a valid calendar date.
pub proof fn lemma_months_add(d: EasyDate, delta: int)
    requires
        1 <= d.month <= 12,
        1 <= d.day,
        0 <= spec_months(d) + delta,
        spec_months(d) + delta <= 12000 * 12,
    ensures
        spec_months(spec_add_months(d, delta)) == spec_months(d) + delta,
        1 <= spec_add_months(d, delta).month <= 12,
        1 <= spec_add_months(d, delta).day <= spec_days_in_month(
            spec_add_months(d, delta).year as int,
            spec_add_months(d, delta).month as int,
        ),
        spec_add_months(d, delta).year == (spec_months(d) + delta) / 12,
{
    let t = spec_months(d) + delta;
    assert(t >= 0);
    assert(0 <= t % 12 < 12);
    assert(12 * (t / 12) + t % 12 == t);
    assert(0 <= t / 12 <= 12000);
    let r = spec_add_months(d, delta);
    assert(r.year == t / 12 && r.month == t % 12 + 1);
    assert(spec_months(r) == r.year * 12 + r.month - 1);
}

} // verus!
