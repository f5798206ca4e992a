//! Calendar dates of the proleptic Gregorian calendar, held as plain
//! year/month/day numbers, with verified conversion to a linear day index.
//! The index makes date comparison and "whole days between two dates" a
//! matter of integer arithmetic.

use vstd::prelude::*;

verus! {

/// One calendar date. `wf` says the fields name a real date.
#[derive(Clone, Copy, Debug, PartialEq, Eq, Structural)]
pub struct Date {
    pub year: u32,
    pub month: u32,
    pub day: u32,
}

pub open spec fn is_leap_year(y: int) -> bool {
    (y % 4 == 0 && y % 100 != 0) || y % 400 == 0
}

pub open spec fn days_in_month(y: int, m: int) -> int {
    if m == 2 {
        if is_leap_year(y) {
            29
        } else {
            28
        }
    } else if m == 4 || m == 6 || m == 9 || m == 11 {
        30
    } else {
        31
    }
}

/// Days in year `y` that lie before the first of month `m`.
pub open spec fn days_before_month(y: int, m: int) -> int
    decreases m,
{
    if m <= 1 {
        0
    } else {
        days_before_month(y, m - 1) + days_in_month(y, m - 1)
    }
}

/// Leap years among 1..y.
pub open spec fn leap_years_before(y: int) -> int {
    (y - 1) / 4 - (y - 1) / 100 + (y - 1) / 400
}

/// Linear day index: the number of calendar days lying strictly between
/// January 1 of year 1 and this date. Differences of indices are whole-day
/// distances between dates.
pub open spec fn day_index(d: Date) -> int {
    365 * (d.year - 1) + leap_years_before(d.year as int) + days_before_month(
        d.year as int,
        d.month as int,
    ) + (d.day - 1)
}

impl Date {
    pub open spec fn wf(self) -> bool {
        1 <= self.year <= 9999 && 1 <= self.month <= 12 && 1 <= self.day <= days_in_month(
            self.year as int,
            self.month as int,
        )
    }
}

pub fn leap_year(y: u32) -> (b: bool)
    ensures
        b == is_leap_year(y as int),
{
    (y % 4 == 0 && y % 100 != 0) || y % 400 == 0
}

pub fn month_days(y: u32, m: u32) -> (n: u32)
    requires
        1 <= m <= 12,
    ensures
        n == days_in_month(y as int, m as int),
        28 <= n <= 31,
{
    if m == 2 {
        if leap_year(y) {
            29
        } else {
            28
        }
    } else if m == 4 || m == 6 || m == 9 || m == 11 {
        30
    } else {
        31
    }
}

proof fn lemma_div_step(y: int, k: int)
    requires
        y >= 1,
        k >= 1,
    ensures
        y / k == (y - 1) / k + (if y % k == 0 {
            1int
        } else {
            0int
        }),
        (y % k == 0) == ((y - 1) % k == k - 1),
    decreases 0int,
{
    let q = (y - 1) / k;
    let r = (y - 1) % k;
    vstd::arithmetic::div_mod::lemma_fundamental_div_mod(y - 1, k);
    if r + 1 < k {
        vstd::arithmetic::div_mod::lemma_fundamental_div_mod_converse(y, k, q, r + 1);
    } else {
        assert(y == (q + 1) * k + 0) by (nonlinear_arith)
            requires
                y - 1 == q * k + r,
                r == k - 1,
        ;
        vstd::arithmetic::div_mod::lemma_fundamental_div_mod_converse(y, k, q + 1, 0);
    }
}

proof fn lemma_divides_factor(y: int, a: int, b: int)
    requires
        y >= 0,
        a >= 1,
        b >= 1,
        y % (a * b) == 0,
    ensures
        y % b == 0,
{
    assert(a * b >= 1) by (nonlinear_arith)
        requires
            a >= 1,
            b >= 1,
    ;
    let q = y / (a * b);
    vstd::arithmetic::div_mod::lemma_fundamental_div_mod(y, a * b);
    assert(y == (q * a) * b) by (nonlinear_arith)
        requires
            y == (a * b) * q,
    ;
    vstd::arithmetic::div_mod::lemma_mod_multiples_basic(q * a, b);
}

/// One more year adds 365 days plus the old year's leap day.
proof fn lemma_leaps_step(y: int)
    requires
        y >= 1,
    ensures
        leap_years_before(y + 1) == leap_years_before(y) + (if is_leap_year(y) {
            1int
        } else {
            0int
        }),
{
    lemma_div_step(y, 4);
    lemma_div_step(y, 100);
    lemma_div_step(y, 400);
    if y % 400 == 0 {
        lemma_divides_factor(y, 4, 100);
        lemma_divides_factor(y, 100, 4);
    }
    if y % 100 == 0 {
        lemma_divides_factor(y, 25, 4);
    }
}

/// Days in year `y` before the first of month 13: the year's length.
proof fn lemma_year_length(y: int)
    ensures
        days_before_month(y, 13) == 365 + (if is_leap_year(y) {
            1int
        } else {
            0int
        }),
{
    reveal_with_fuel(days_before_month, 14);
}

proof fn lemma_days_before_month_mono(y: int, m1: int, m2: int)
    requires
        1 <= m1 <= m2 <= 13,
    ensures
        days_before_month(y, m1) <= days_before_month(y, m2),
    decreases m2 - m1,
{
    if m1 < m2 {
        lemma_days_before_month_mono(y, m1, m2 - 1);
    }
}

/// The start-of-year index of a later year is strictly past every day of
/// an earlier one.
proof fn lemma_year_base_mono(y1: int, y2: int)
    requires
        1 <= y1 <= y2,
    ensures
        365 * (y1 - 1) + leap_years_before(y1) <= 365 * (y2 - 1) + leap_years_before(y2),
    decreases y2 - y1,
{
    if y1 < y2 {
        lemma_leaps_step(y2 - 1);
        lemma_year_base_mono(y1, y2 - 1);
    }
}

/// Dates in calendar order have day indices in the same order: the index
/// is faithful to year, then month, then day.
pub proof fn lemma_day_index_order(d1: Date, d2: Date)
    requires
        d1.wf(),
        d2.wf(),
        d1.year < d2.year || (d1.year == d2.year && d1.month < d2.month) || (d1.year == d2.year
            && d1.month == d2.month && d1.day < d2.day),
    ensures
        day_index(d1) < day_index(d2),
{
    let y1 = d1.year as int;
    let y2 = d2.year as int;
    lemma_days_before_month_mono(y1, 1, d1.month as int);
    lemma_days_before_month_mono(y2, 1, d2.month as int);
    lemma_days_before_month_mono(y1, d1.month as int + 1, 13);
    lemma_year_length(y1);
    if y1 < y2 {
        lemma_leaps_step(y1);
        lemma_year_base_mono(y1 + 1, y2);
    } else if d1.month < d2.month {
        lemma_days_before_month_mono(y1, d1.month as int + 1, d2.month as int);
    }
}

/// The day index is one-to-one on real dates: it loses nothing of the
/// calendar.
pub proof fn lemma_day_index_injective(d1: Date, d2: Date)
    requires
        d1.wf(),
        d2.wf(),
        day_index(d1) == day_index(d2),
    ensures
        d1 == d2,
{
    if d1.year < d2.year || (d1.year == d2.year && d1.month < d2.month) || (d1.year == d2.year
        && d1.month == d2.month && d1.day < d2.day) {
        lemma_day_index_order(d1, d2);
    } else if d2.year < d1.year || (d2.year == d1.year && d2.month < d1.month) || (d2.year
        == d1.year && d2.month == d1.month && d2.day < d1.day) {
        lemma_day_index_order(d2, d1);
    }
}

/// The day index of a well-formed date, as a machine integer.
pub fn day_number(d: &Date) -> (n: u32)
    requires
        d.wf(),
    ensures
        n == day_index(*d),
        n < 3_700_000,
{
    let y = d.year;
    proof {
        vstd::arithmetic::div_mod::lemma_div_is_ordered_by_denominator((y - 1) as int, 4, 100);
        vstd::arithmetic::div_mod::lemma_div_nonincreasing((y - 1) as int, 4);
        vstd::arithmetic::div_mod::lemma_div_nonincreasing((y - 1) as int, 400);
    }
    let leaps = (y - 1) / 4 - (y - 1) / 100 + (y - 1) / 400;
    let mut dbm: u32 = 0;
    let mut m: u32 = 1;
    while m < d.month
        invariant
            d.wf(),
            1 <= m <= d.month,
            dbm == days_before_month(d.year as int, m as int),
            dbm <= 31 * (m - 1),
        decreases d.month - m,
    {
        dbm = dbm + month_days(d.year, m);
        m = m + 1;
    }
    365 * (y - 1) + leaps + dbm + (d.day - 1)
}

} // verus!
