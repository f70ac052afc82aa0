use vstd::prelude::*;

verus! {

/// The earliest year that a calendar date can carry.
pub const MIN_YEAR: i32 = -262143;

/// The latest year that a calendar date can carry.
pub const MAX_YEAR: i32 = 262142;

pub open spec fn is_leap_year(y: int) -> bool {
    y % 4 == 0 && (y % 100 != 0 || y % 400 == 0)
}

pub open spec fn days_in_month(y: int, m: int) -> int {
    if m == 2 {
        if is_leap_year(y) { 29 } else { 28 }
    } else if m == 4 || m == 6 || m == 9 || m == 11 {
        30
    } else {
        31
    }
}

/// A day of the proleptic Gregorian calendar within the supported years.
pub open spec fn is_calendar_date(y: int, m: int, d: int) -> bool {
    &&& MIN_YEAR <= y <= MAX_YEAR
    &&& 1 <= m <= 12
    &&& 1 <= d <= days_in_month(y, m)
}

/// The decimal digit `n`.
pub open spec fn digit(n: int) -> char {
    seq!['0', '1', '2', '3', '4', '5', '6', '7', '8', '9'][n]
}

/// `n` written with exactly `w` decimal digits, zero-padded on the left.
pub open spec fn fixed_digits(n: int, w: nat) -> Seq<char>
    decreases w,
{
    if w == 0 {
        Seq::empty()
    } else {
        fixed_digits(n / 10, (w - 1) as nat).push(digit(n % 10))
    }
}

/// How many decimal digits `n` takes.
pub open spec fn num_digits(n: nat) -> nat
    decreases n,
{
    if n < 10 {
        1
    } else {
        1 + num_digits(n / 10)
    }
}

/// The year as `%Y` writes it: four zero-padded digits for 0..=9999, else
/// a sign and at least four digits.
pub open spec fn year_text(y: int) -> Seq<char> {
    if 0 <= y <= 9999 {
        fixed_digits(y, 4)
    } else {
        let n: nat = if y < 0 { (-y) as nat } else { y as nat };
        let w: nat = if num_digits(n) < 4 { 4 } else { num_digits(n) };
        seq![if y < 0 { '-' } else { '+' }] + fixed_digits(n as int, w)
    }
}

/// The text of a date as chrono's `%Y%m%d` writes it: `YYYYMMDD` for the
/// years 0..=9999.
pub open spec fn ymd_text(y: int, m: int, d: int) -> Seq<char> {
    year_text(y) + fixed_digits(m, 2) + fixed_digits(d, 2)
}

/// Relies on chrono::NaiveDate::from_ymd_opt: it returns a date exactly for
/// a day of the proleptic Gregorian calendar in chrono's range of years.
#[verifier::external_body]
fn chrono_accepts(year: i32, month: u32, day: u32) -> (r: bool)
    ensures
        r == is_calendar_date(year as int, month as int, day as int),
{
    chrono::NaiveDate::from_ymd_opt(year, month, day).is_some()
}

/// Relies on chrono's `%Y%m%d` format of a NaiveDate: the year takes four
/// zero-padded digits in 0..=9999 and otherwise a sign and at least four
/// digits; month and day take two zero-padded digits each.
#[verifier::external_body]
fn chrono_ymd(year: i32, month: u32, day: u32) -> (r: String)
    requires
        is_calendar_date(year as int, month as int, day as int),
    ensures
        r@ == ymd_text(year as int, month as int, day as int),
{
    match chrono::NaiveDate::from_ymd_opt(year, month, day) {
        Some(d) => d.format("%Y%m%d").to_string(),
        None => String::new(),
    }
}

/// A calendar day, held as year, month and day.
#[derive(Debug, Clone, Copy, PartialEq, Eq)]
pub struct Date {
    year: i32,
    month: u32,
    day: u32,
}

impl Date {
    #[verifier::type_invariant]
    spec fn is_valid(&self) -> bool {
        is_calendar_date(self.year as int, self.month as int, self.day as int)
    }

    pub closed spec fn spec_year(&self) -> int {
        self.year as int
    }

    pub closed spec fn spec_month(&self) -> int {
        self.month as int
    }

    pub closed spec fn spec_day(&self) -> int {
        self.day as int
    }

    /// The date `year`-`month`-`day`, where that day exists.
    pub fn from_ymd_opt(year: i32, month: u32, day: u32) -> (r: Option<Date>)
        ensures
            r is Some <==> is_calendar_date(year as int, month as int, day as int),
            r is Some ==> r->Some_0.spec_year() == year && r->Some_0.spec_month() == month
                && r->Some_0.spec_day() == day,
    {
        if chrono_accepts(year, month, day) {
            Some(Date { year, month, day })
        } else {
            None
        }
    }

    pub fn year(&self) -> (r: i32)
        ensures
            r == self.spec_year(),
    {
        self.year
    }

    pub fn month(&self) -> (r: u32)
        ensures
            r == self.spec_month(),
    {
        self.month
    }

    pub fn day(&self) -> (r: u32)
        ensures
            r == self.spec_day(),
    {
        self.day
    }

    pub open spec fn spec_stamp(&self) -> Seq<char> {
        ymd_text(self.spec_year(), self.spec_month(), self.spec_day())
    }

    /// The date as `YYYYMMDD`.
    pub fn stamp(&self) -> (r: String)
        ensures
            r@ == self.spec_stamp(),
            0 <= self.spec_year() <= 9999 ==> r@ == fixed_digits(self.spec_year(), 4)
                + fixed_digits(self.spec_month(), 2) + fixed_digits(self.spec_day(), 2),
    {
        proof {
            use_type_invariant(self);
        }
        chrono_ymd(self.year, self.month, self.day)
    }
}

} // verus!
