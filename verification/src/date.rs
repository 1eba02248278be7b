//! Calendar dates as proleptic-Gregorian day numbers.
//!
//! A [`Date`] is modelled by the count of days since December 31 of the year
//! 0 in the proleptic Gregorian calendar, so that January 1 of the year 1 is
//! day 1 (the convention of `chrono::Datelike::num_days_from_ce`). All date
//! arithmetic used by the week computations is plain integer arithmetic over
//! that day number; the translation between `(year, month, day)` triples, the
//! calendar year and the weekday of a day number is delegated to chrono.

use chrono::Datelike;
use vstd::arithmetic::div_mod::lemma_div_is_ordered;
use vstd::arithmetic::div_mod::lemma_fundamental_div_mod;
use vstd::arithmetic::div_mod::lemma_fundamental_div_mod_converse;
use vstd::arithmetic::div_mod::lemma_mod_division_less_than_divisor;
use vstd::arithmetic::div_mod::lemma_mod_multiples_basic;
use vstd::prelude::*;

verus! {

/// A day of the week.
#[derive(Clone, Copy, PartialEq, Eq, Debug, Structural)]
pub enum Weekday {
    Mon,
    Tue,
    Wed,
    Thu,
    Fri,
    Sat,
    Sun,
}

/// The 0-based ordinal of a weekday, counting from Monday.
pub open spec fn weekday_ord(w: Weekday) -> int {
    match w {
        Weekday::Mon => 0,
        Weekday::Tue => 1,
        Weekday::Wed => 2,
        Weekday::Thu => 3,
        Weekday::Fri => 4,
        Weekday::Sat => 5,
        Weekday::Sun => 6,
    }
}

impl Weekday {
    /// The number of days this weekday lies after Monday, from 0 to 6.
    pub fn num_days_from_monday(&self) -> (r: u32)
        ensures
            r as int == weekday_ord(*self),
    {
        match self {
            Weekday::Mon => 0,
            Weekday::Tue => 1,
            Weekday::Wed => 2,
            Weekday::Thu => 3,
            Weekday::Fri => 4,
            Weekday::Sat => 5,
            Weekday::Sun => 6,
        }
    }
}

/// Whether a year is a leap year of the proleptic Gregorian calendar.
pub open spec fn is_leap_year(y: int) -> bool {
    y % 4 == 0 && (y % 100 != 0 || y % 400 == 0)
}

/// The day number of January 1 of year `y`: day 1 is January 1 of year 1,
/// and each year before `y` contributes 365 days plus one per leap year.
pub open spec fn jan1_of(y: int) -> int {
    1 + 365 * (y - 1) + (y - 1) / 4 - (y - 1) / 100 + (y - 1) / 400
}

/// How many days of year `y` pass before month `m` begins.
pub open spec fn days_before_month(y: int, m: int) -> int {
    let flat: int = if m == 1 {
        0
    } else if m == 2 {
        31
    } else if m == 3 {
        59
    } else if m == 4 {
        90
    } else if m == 5 {
        120
    } else if m == 6 {
        151
    } else if m == 7 {
        181
    } else if m == 8 {
        212
    } else if m == 9 {
        243
    } else if m == 10 {
        273
    } else if m == 11 {
        304
    } else {
        334
    };
    if m > 2 && is_leap_year(y) {
        flat + 1
    } else {
        flat
    }
}

/// The number of days in month `m` of year `y`.
pub open spec fn days_in_month(y: int, m: int) -> int {
    if m == 2 {
        if is_leap_year(y) {
            29
        } else {
            28
        }
    } else if m == 4 || m == 6 || m == 9 || m == 11 {
        30
    } else {
        31
    }
}

/// Whether `(y, m, d)` names a day of the proleptic Gregorian calendar.
pub open spec fn valid_ymd(y: int, m: int, d: int) -> bool {
    1 <= m <= 12 && 1 <= d <= days_in_month(y, m)
}

/// The day number of the calendar date `(y, m, d)`.
pub open spec fn day_num_of_ymd(y: int, m: int, d: int) -> int {
    jan1_of(y) + days_before_month(y, m) + d - 1
}

/// The weekday ordinal (Monday = 0) of a day number: day 1, January 1 of
/// year 1, is a Monday.
pub open spec fn weekday_num_of_day(d: int) -> int {
    (d - 1) % 7
}

/// Whether day number `d` falls in calendar year `y`.
pub open spec fn is_year_of(y: int, d: int) -> bool {
    jan1_of(y) <= d < jan1_of(y + 1)
}

/// The calendar year that day number `d` falls in.
pub open spec fn year_of(d: int) -> int {
    choose|y: int| is_year_of(y, d)
}

/// Day numbers a [`Date`] may hold; comfortably inside the range chrono
/// can represent, with room for the week arithmetic around it.
pub open spec fn day_in_range(d: int) -> bool {
    -37_000_000 <= d <= 37_000_000
}

/// Day numbers accepted by the week computations: about 98,500 years on
/// either side of the common era.
pub open spec fn day_in_week_range(d: int) -> bool {
    -36_000_000 <= d <= 36_000_000
}

/// A calendar date, stored as its proleptic-Gregorian day number.
#[derive(Clone, Copy, PartialEq, Eq, Debug, Structural)]
pub struct Date {
    pub(crate) days: i32,
}

impl View for Date {
    type V = int;

    closed spec fn view(&self) -> int {
        self.days as int
    }
}

/// Relies on `chrono::NaiveDate::from_ymd_opt`, which accepts exactly the
/// valid proleptic-Gregorian dates (the year range asked of it here lies
/// well inside chrono's limits), and on `chrono::Datelike::num_days_from_ce`,
/// which counts days with January 1 of year 1 as day 1.
#[verifier::external_body]
fn chrono_days_from_ymd(year: i32, month: u32, day: u32) -> (r: Option<i32>)
    requires
        -200_000 <= year <= 200_000,
    ensures
        r is Some <==> valid_ymd(year as int, month as int, day as int),
        r is Some ==> r.unwrap() as int == day_num_of_ymd(year as int, month as int, day as int),
{
    match chrono::NaiveDate::from_ymd_opt(year, month, day) {
        Some(d) => Some(d.num_days_from_ce()),
        None => None,
    }
}

/// Relies on `chrono::NaiveDate::from_num_days_from_ce_opt` (total on the
/// range asked of it) and `chrono::Datelike::year`: the year returned is the
/// one whose January 1 lies at or before the day, with the next year's
/// January 1 after it.
#[verifier::external_body]
fn chrono_year_from_days(days: i32) -> (r: i32)
    requires
        day_in_range(days as int),
    ensures
        is_year_of(r as int, days as int),
        -110_000 <= r <= 110_000,
{
    chrono::NaiveDate::from_num_days_from_ce_opt(days)
        .unwrap()
        .year()
}

/// Relies on `chrono::NaiveDate::from_num_days_from_ce_opt` (total on the
/// range asked of it) and on `weekday().num_days_from_monday()`: day 1,
/// January 1 of year 1, is a Monday of the proleptic Gregorian calendar, and
/// weekdays repeat with period 7.
#[verifier::external_body]
fn chrono_weekday_from_days(days: i32) -> (r: u32)
    requires
        day_in_range(days as int),
    ensures
        r as int == weekday_num_of_day(days as int),
        r < 7,
{
    chrono::NaiveDate::from_num_days_from_ce_opt(days)
        .unwrap()
        .weekday()
        .num_days_from_monday()
}

impl Date {
    /// Whether the stored day number lies in the supported range.
    pub open spec fn wf(&self) -> bool {
        day_in_range(self@)
    }

    /// Builds the date of the calendar day `(year, month, day)`, or `None`
    /// when no such day exists. Years beyond about 98,000 on either side of
    /// the common era are not accepted, so that every constructed date stays
    /// well inside the supported day range.
    pub fn from_ymd(year: i32, month: u32, day: u32) -> (r: Option<Date>)
        requires
            -98_000 <= year <= 98_000,
        ensures
            r is Some <==> valid_ymd(year as int, month as int, day as int),
            r is Some ==> r.unwrap()@ == day_num_of_ymd(year as int, month as int, day as int),
            r is Some ==> day_in_week_range(r.unwrap()@) && r.unwrap().wf(),
    {
        proof {
            lemma_jan1_bounds(year as int);
            lemma_jan1_bounds(year as int + 1);
        }
        match chrono_days_from_ymd(year, month, day) {
            Some(days) => Some(Date { days }),
            None => None,
        }
    }

    /// Wraps a raw day number, for the crate's own date arithmetic.
    pub(crate) fn of_days(days: i32) -> (r: Date)
        ensures
            r@ == days as int,
    {
        Date { days }
    }

    /// Builds a January date for the week computations, which reach one year
    /// past the dates `from_ymd` accepts.
    pub(crate) fn from_january(year: i32, day: u32) -> (r: Date)
        requires
            -99_501 <= year <= 99_501,
            1 <= day <= 31,
        ensures
            r@ == day_num_of_ymd(year as int, 1, day as int),
            r@ == jan1_of(year as int) + day - 1,
            -36_400_030 <= r@ <= 36_400_030,
            r.wf(),
    {
        proof {
            lemma_jan1_bounds(year as int);
        }
        let days = chrono_days_from_ymd(year, 1, day).unwrap();
        Date { days }
    }

    /// The proleptic-Gregorian day number of this date; January 1 of year 1
    /// is day 1.
    pub fn num_days_from_ce(&self) -> (r: i32)
        ensures
            r as int == self@,
    {
        self.days
    }

    /// The calendar year this date falls in.
    pub fn year(&self) -> (r: i32)
        requires
            self.wf(),
        ensures
            is_year_of(r as int, self@),
            r as int == year_of(self@),
            -110_000 <= r <= 110_000,
    {
        let y = chrono_year_from_days(self.days);
        proof {
            lemma_year_of_unique(self@, y as int);
        }
        y
    }

    /// The weekday this date falls on.
    pub fn weekday(&self) -> (r: Weekday)
        requires
            self.wf(),
        ensures
            weekday_ord(r) == weekday_num_of_day(self@),
    {
        let n = chrono_weekday_from_days(self.days);
        if n == 0 {
            Weekday::Mon
        } else if n == 1 {
            Weekday::Tue
        } else if n == 2 {
            Weekday::Wed
        } else if n == 3 {
            Weekday::Thu
        } else if n == 4 {
            Weekday::Fri
        } else if n == 5 {
            Weekday::Sat
        } else {
            Weekday::Sun
        }
    }
}

/// Bounds on the day number of January 1 for the years the crate works with.
pub proof fn lemma_jan1_bounds(y: int)
    requires
        -200_001 <= y <= 200_002,
    ensures
        -74_000_000 <= jan1_of(y) <= 74_000_000,
        -110_000 <= y <= 110_000 ==> -41_000_000 <= jan1_of(y) <= 41_000_000,
        -99_600 <= y <= 99_600 ==> -36_400_000 <= jan1_of(y) <= 36_400_000,
        -98_001 <= y <= 98_001 ==> -35_900_000 <= jan1_of(y) <= 35_810_000,
{
    lemma_div_is_ordered(-200_002, y - 1, 4);
    lemma_div_is_ordered(y - 1, 200_001, 4);
    lemma_div_is_ordered(-200_002, y - 1, 100);
    lemma_div_is_ordered(y - 1, 200_001, 100);
    lemma_div_is_ordered(-200_002, y - 1, 400);
    lemma_div_is_ordered(y - 1, 200_001, 400);
    if -110_000 <= y <= 110_000 {
        lemma_div_is_ordered(-110_001, y - 1, 4);
        lemma_div_is_ordered(y - 1, 109_999, 4);
        lemma_div_is_ordered(-110_001, y - 1, 100);
        lemma_div_is_ordered(y - 1, 109_999, 100);
        lemma_div_is_ordered(-110_001, y - 1, 400);
        lemma_div_is_ordered(y - 1, 109_999, 400);
    }
    if -99_600 <= y <= 99_600 {
        lemma_div_is_ordered(-99_601, y - 1, 4);
        lemma_div_is_ordered(y - 1, 99_599, 4);
        lemma_div_is_ordered(-99_601, y - 1, 100);
        lemma_div_is_ordered(y - 1, 99_599, 100);
        lemma_div_is_ordered(-99_601, y - 1, 400);
        lemma_div_is_ordered(y - 1, 99_599, 400);
    }
    if -98_001 <= y <= 98_001 {
        lemma_div_is_ordered(-98_002, y - 1, 4);
        lemma_div_is_ordered(y - 1, 98_000, 4);
        lemma_div_is_ordered(-98_002, y - 1, 100);
        lemma_div_is_ordered(y - 1, 98_000, 100);
        lemma_div_is_ordered(-98_002, y - 1, 400);
        lemma_div_is_ordered(y - 1, 98_000, 400);
    }
}

/// Dividing `x` and `x - 1` by a positive `k` differs exactly when `k`
/// divides `x`.
proof fn lemma_div_step(x: int, k: int)
    requires
        0 < k,
    ensures
        x % k == 0 ==> x / k - (x - 1) / k == 1,
        x % k != 0 ==> x / k - (x - 1) / k == 0,
{
    lemma_fundamental_div_mod(x, k);
    lemma_mod_division_less_than_divisor(x, k);
    let q = x / k;
    let r = x % k;
    if r == 0 {
        assert(x - 1 == (q - 1) * k + (k - 1)) by {
            assert(x == q * k);
            assert((q - 1) * k == q * k - k) by (nonlinear_arith);
        }
        lemma_fundamental_div_mod_converse(x - 1, k, q - 1, k - 1);
    } else {
        assert(x - 1 == q * k + (r - 1)) by {
            assert(x == q * k + r);
        }
        lemma_fundamental_div_mod_converse(x - 1, k, q, r - 1);
    }
}

/// A multiple of 400 is a multiple of 100, and a multiple of 100 one of 4.
proof fn lemma_leap_divisors(y: int)
    ensures
        y % 400 == 0 ==> y % 100 == 0,
        y % 100 == 0 ==> y % 4 == 0,
{
    if y % 400 == 0 {
        lemma_fundamental_div_mod(y, 400);
        let q = y / 400;
        assert(y == 100 * (4 * q)) by (nonlinear_arith)
            requires
                y == q * 400,
        ;
        lemma_mod_multiples_basic(4 * q, 100);
    }
    if y % 100 == 0 {
        lemma_fundamental_div_mod(y, 100);
        let q = y / 100;
        assert(y == (25 * q) * 4) by (nonlinear_arith)
            requires
                y == q * 100,
        ;
        lemma_mod_multiples_basic(25 * q, 4);
    }
}

/// A calendar year holds 365 days, or 366 in a leap year.
pub proof fn lemma_year_length(y: int)
    ensures
        is_leap_year(y) ==> jan1_of(y + 1) == jan1_of(y) + 366,
        !is_leap_year(y) ==> jan1_of(y + 1) == jan1_of(y) + 365,
        365 <= jan1_of(y + 1) - jan1_of(y) <= 366,
{
    lemma_div_step(y, 4);
    lemma_div_step(y, 100);
    lemma_div_step(y, 400);
    lemma_leap_divisors(y);
}

/// January 1 moves strictly forward from year to year.
pub proof fn lemma_jan1_increasing(y1: int, y2: int)
    requires
        y1 < y2,
    ensures
        jan1_of(y1) + 365 * (y2 - y1) <= jan1_of(y2),
    decreases y2 - y1,
{
    lemma_year_length(y2 - 1);
    if y1 < y2 - 1 {
        lemma_jan1_increasing(y1, y2 - 1);
    }
}

/// January 1 never moves backward across years.
pub proof fn lemma_jan1_mono(y1: int, y2: int)
    requires
        y1 <= y2,
    ensures
        jan1_of(y1) <= jan1_of(y2),
{
    if y1 < y2 {
        lemma_jan1_increasing(y1, y2);
    }
}

/// Only one calendar year contains a given day number.
pub proof fn lemma_year_of_unique(d: int, y: int)
    requires
        is_year_of(y, d),
    ensures
        year_of(d) == y,
        is_year_of(year_of(d), d),
{
    let yy = year_of(d);
    assert(is_year_of(yy, d)) by {
        assert(exists|c: int| is_year_of(c, d)) by {
            assert(is_year_of(y, d));
        }
    }
    if yy < y {
        lemma_jan1_mono(yy + 1, y);
        assert(jan1_of(y) <= d);
        assert(d < jan1_of(yy + 1));
    }
    if y < yy {
        lemma_jan1_mono(y + 1, yy);
        assert(jan1_of(yy) <= d);
        assert(d < jan1_of(y + 1));
    }
}

} // verus!
