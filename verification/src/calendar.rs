//! Dates of the Gregorian calendar, counted in days from 1970-01-01, and
//! their text in the year, month and day formats.

use vstd::prelude::*;

verus! {

/// A leap year of the Gregorian calendar.
pub open spec fn is_leap(y: int) -> bool {
    (y % 4 == 0 && y % 100 != 0) || y % 400 == 0
}

/// The number of days of month `m` of year `y`.
pub open spec fn days_in_month(y: int, m: int) -> int {
    if m == 2 {
        if is_leap(y) {
            29
        } else {
            28
        }
    } else if m == 4 || m == 6 || m == 9 || m == 11 {
        30
    } else {
        31
    }
}

/// Days in the months of year `y` before month `m`.
pub open spec fn days_before_month(y: int, m: int) -> int
    decreases m,
{
    if m <= 1 {
        0
    } else {
        days_before_month(y, m - 1) + days_in_month(y, m - 1)
    }
}

/// The day, counted from 1970-01-01 (day 0), of the date `y-m-d` of the
/// proleptic Gregorian calendar, for years from 1 on.
pub open spec fn days_from_civil(y: int, m: int, d: int) -> int {
    days_before_year(y) + days_before_month(y, m) + d - 1
}

/// A date of the years 1 to 9999.
pub open spec fn valid_date(y: int, m: int, d: int) -> bool {
    1 <= y <= 9999 && 1 <= m <= 12 && 1 <= d <= days_in_month(y, m)
}

/// `n` in `w` decimal digits, zeros in front.
pub open spec fn padded(n: nat, w: nat) -> Seq<char>
    decreases w,
{
    if w == 0 {
        Seq::empty()
    } else {
        padded(n / 10, (w - 1) as nat).push(crate::text::digit_char(n % 10))
    }
}

/// The date (year, month, day) of the years 1 to 9999 that falls on day
/// `day` counted from 1970-01-01; there is one for each day from
/// 0001-01-01 to 9999-12-31.
pub open spec fn civil_date(day: int) -> (int, int, int) {
    choose|date: (int, int, int)| valid_date(date.0, date.1, date.2) && days_from_civil(date.0, date.1, date.2) == day
}

/// The text of a date for one of the formats `%Y`, `%m` and `%d`.
pub open spec fn date_text(date: (int, int, int), fmt: Seq<char>) -> Seq<char> {
    if fmt == "%Y"@ {
        padded(date.0 as nat, 4)
    } else if fmt == "%m"@ {
        padded(date.1 as nat, 2)
    } else {
        padded(date.2 as nat, 2)
    }
}

/// The day, counted from 1970-01-01, of the first of January of year `y`.
pub open spec fn days_before_year(y: int) -> int {
    365 * (y - 1) + (y - 1) / 4 - (y - 1) / 100 + (y - 1) / 400 - 719162
}

proof fn lemma_year_length(y: int)
    requires
        y >= 1,
    ensures
        days_before_year(y + 1) - days_before_year(y) == if is_leap(y) {
            366int
        } else {
            365int
        },
{
    let a = y - 1;
    assert(a == 4 * (a / 4) + a % 4 && 0 <= a % 4 < 4);
    assert(a == 100 * (a / 100) + a % 100 && 0 <= a % 100 < 100);
    assert(a == 400 * (a / 400) + a % 400 && 0 <= a % 400 < 400);
    assert(y == 4 * (y / 4) + y % 4 && 0 <= y % 4 < 4);
    assert(y == 100 * (y / 100) + y % 100 && 0 <= y % 100 < 100);
    assert(y == 400 * (y / 400) + y % 400 && 0 <= y % 400 < 400);
    assert(y / 4 - a / 4 == if y % 4 == 0 { 1int } else { 0int });
    assert(y / 100 - a / 100 == if y % 100 == 0 { 1int } else { 0int });
    assert(y / 400 - a / 400 == if y % 400 == 0 { 1int } else { 0int });
    assert(y % 400 == 0 ==> y % 100 == 0 && y % 4 == 0);
    assert(y % 100 == 0 ==> y % 4 == 0);
}

proof fn lemma_years_ordered(y1: int, y2: int)
    requires
        1 <= y1 < y2,
    ensures
        days_before_year(y1 + 1) <= days_before_year(y2),
    decreases y2 - y1,
{
    if y1 + 1 < y2 {
        lemma_years_ordered(y1, y2 - 1);
        lemma_year_length(y2 - 1);
    }
}

proof fn lemma_months_ordered(y: int, m1: int, m2: int)
    requires
        1 <= m1 < m2,
    ensures
        days_before_month(y, m1 + 1) <= days_before_month(y, m2),
    decreases m2 - m1,
{
    if m1 + 1 < m2 {
        lemma_months_ordered(y, m1, m2 - 1);
    }
}

/// A valid date falls inside its year and its month.
proof fn lemma_date_within(y: int, m: int, d: int)
    requires
        valid_date(y, m, d),
    ensures
        days_before_year(y) + days_before_month(y, m) <= days_from_civil(y, m, d) < days_before_year(y) + days_before_month(
            y,
            m + 1,
        ),
        days_before_year(y) <= days_from_civil(y, m, d) < days_before_year(y + 1),
{
    lemma_year_length(y);
    reveal_with_fuel(days_before_month, 13);
    assert(days_before_month(y, m) >= 0);
    if m < 12 {
        lemma_months_ordered(y, m, 13);
    }
}

/// Days name dates one for one: the date of the day of a valid date is that
/// date.
pub proof fn lemma_civil_date(y: int, m: int, d: int)
    requires
        valid_date(y, m, d),
    ensures
        civil_date(days_from_civil(y, m, d)) == (y, m, d),
{
    let day = days_from_civil(y, m, d);
    assert(valid_date((y, m, d).0, (y, m, d).1, (y, m, d).2) && days_from_civil((y, m, d).0, (y, m, d).1, (y, m, d).2)
        == day);
    let c = civil_date(day);
    assert(valid_date(c.0, c.1, c.2) && days_from_civil(c.0, c.1, c.2) == day);
    let (y2, m2, d2) = c;
    lemma_date_within(y, m, d);
    lemma_date_within(y2, m2, d2);
    if y < y2 {
        lemma_years_ordered(y, y2);
    } else if y2 < y {
        lemma_years_ordered(y2, y);
    }
    assert(y == y2);
    if m < m2 {
        lemma_months_ordered(y, m, m2);
    } else if m2 < m {
        lemma_months_ordered(y, m2, m);
    }
    assert(m == m2);
}

} // verus!
