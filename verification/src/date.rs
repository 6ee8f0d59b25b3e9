//! The calendar date of a Unix timestamp, and its text.

use crate::utils::push_char;
use vstd::prelude::*;
use vstd::string::StringExecFns;

verus! {

/// Whether `year` is a leap year of the Gregorian calendar.
pub open spec fn is_leap(year: int) -> bool {
    (year % 4 == 0 && year % 100 != 0) || year % 400 == 0
}

/// The number of days of `year`.
pub open spec fn year_days(year: int) -> int {
    if is_leap(year) {
        366
    } else {
        365
    }
}

/// The number of days from 1 January 1970 to 1 January of `year`.
pub open spec fn days_before_year(year: int) -> int
    decreases year,
{
    if year <= 1970 {
        0
    } else {
        days_before_year(year - 1) + year_days(year - 1)
    }
}

/// The number of days of a month, 1 to 12, of `year`.
pub open spec fn month_days(year: int, month: int) -> int {
    if month == 2 {
        if is_leap(year) {
            29
        } else {
            28
        }
    } else if month == 4 || month == 6 || month == 9 || month == 11 {
        30
    } else {
        31
    }
}

/// The number of days from 1 January of `year` to the first of a month, 1 to
/// 12, of that year.
pub open spec fn days_before_month(year: int, month: int) -> int
    decreases month,
{
    if month <= 1 {
        0
    } else {
        days_before_month(year, month - 1) + month_days(year, month - 1)
    }
}

/// Whether the day that lies `days` days after 1 January 1970 is the
/// `day`-th of `month` in `year`.
pub open spec fn is_date_of(days: int, year: int, month: int, day: int) -> bool {
    &&& 1970 <= year
    &&& 1 <= month <= 12
    &&& 1 <= day <= month_days(year, month)
    &&& days_before_year(year) + days_before_month(year, month) + (day - 1) == days
}

/// From one year to a later one there are at least 365 days for each year
/// between them.
proof fn lemma_years_grow(from: int, to: int)
    requires
        1970 <= from <= to,
    ensures
        days_before_year(from) + 365 * (to - from) <= days_before_year(to),
    decreases to - from,
{
    if from < to {
        lemma_years_grow(from, to - 1);
    }
}

/// A day of a month lies within its year.
proof fn lemma_day_of_year(year: int, month: int, day: int)
    requires
        1 <= month <= 12,
        1 <= day <= month_days(year, month),
    ensures
        0 <= days_before_month(year, month) + (day - 1) < year_days(year),
{
    reveal_with_fuel(days_before_month, 13);
}

/// A later month starts behind the last day of an earlier one.
proof fn lemma_months_grow(year: int, earlier: int, later: int)
    requires
        1 <= earlier < later <= 12,
    ensures
        days_before_month(year, earlier) + month_days(year, earlier) <= days_before_month(
            year,
            later,
        ),
{
    reveal_with_fuel(days_before_month, 13);
}

/// A day has one date only.
pub proof fn lemma_date_unique(
    days: int,
    year: int,
    month: int,
    day: int,
    other_year: int,
    other_month: int,
    other_day: int,
)
    requires
        is_date_of(days, year, month, day),
        is_date_of(days, other_year, other_month, other_day),
    ensures
        year == other_year,
        month == other_month,
        day == other_day,
{
    lemma_day_of_year(year, month, day);
    lemma_day_of_year(other_year, other_month, other_day);
    if year < other_year {
        lemma_years_grow(year + 1, other_year);
    }
    if other_year < year {
        lemma_years_grow(other_year + 1, year);
    }
    if month < other_month {
        lemma_months_grow(year, month, other_month);
    }
    if other_month < month {
        lemma_months_grow(year, other_month, month);
    }
}

/// The English name of a month, 1 to 12.
pub open spec fn month_name(month: int) -> Seq<char> {
    if month == 1 {
        "January"@
    } else if month == 2 {
        "February"@
    } else if month == 3 {
        "March"@
    } else if month == 4 {
        "April"@
    } else if month == 5 {
        "May"@
    } else if month == 6 {
        "June"@
    } else if month == 7 {
        "July"@
    } else if month == 8 {
        "August"@
    } else if month == 9 {
        "September"@
    } else if month == 10 {
        "October"@
    } else if month == 11 {
        "November"@
    } else if month == 12 {
        "December"@
    } else {
        "Month"@
    }
}

/// The character of a decimal digit, 0 to 9.
pub open spec fn digit(d: int) -> char {
    (0x30 + d) as char
}

/// The decimal digits of `n`, without leading zeros.
pub open spec fn decimal(n: nat) -> Seq<char>
    decreases n,
{
    if n < 10 {
        seq![digit(n as int)]
    } else {
        decimal(n / 10).push(digit((n % 10) as int))
    }
}

/// The decimal digits of `n`, with a leading zero when there is only one.
pub open spec fn two_digits(n: nat) -> Seq<char> {
    if n < 10 {
        seq!['0'] + decimal(n)
    } else {
        decimal(n)
    }
}

/// The text of a date: the month's name, the day in two digits, the year.
pub open spec fn date_text(year: int, month: int, day: int) -> Seq<char> {
    month_name(month) + seq![',', ' '] + two_digits(day as nat) + seq![',', ' '] + decimal(
        year as nat,
    )
}

/// Whether `year` is a leap year.
pub fn is_leap_year(year: u32) -> (leap: bool)
    ensures
        leap == is_leap(year as int),
{
    (year % 4 == 0 && year % 100 != 0) || (year % 400 == 0)
}

/// The date of the day that lies `days` days after 1 January 1970: year,
/// month and day of the month.
pub fn date_of_day(days: u32) -> (date: (u32, u32, u32))
    ensures
        is_date_of(days as int, date.0 as int, date.1 as int, date.2 as int),
{
    let mut year: u32 = 1970;
    let mut remaining: u32 = days;
    while remaining >= length_of_year(year)
        invariant
            1970 <= year,
            365 * (year - 1970) <= days - remaining,
            remaining <= days,
            days_before_year(year as int) + remaining == days,
        decreases remaining,
    {
        remaining = remaining - length_of_year(year);
        year = year + 1;
    }
    let mut month: u32 = 1;
    while month < 12 && remaining >= length_of_month(year, month)
        invariant
            1 <= month <= 12,
            days_before_year(year as int) + days_before_month(year as int, month as int)
                + remaining == days,
            days_before_month(year as int, month as int) + remaining < year_days(year as int),
        decreases 12 - month,
    {
        proof {
            reveal_with_fuel(days_before_month, 13);
        }
        remaining = remaining - length_of_month(year, month);
        month = month + 1;
    }
    proof {
        reveal_with_fuel(days_before_month, 13);
    }
    (year, month, remaining + 1)
}

/// The number of days of `year`.
fn length_of_year(year: u32) -> (days: u32)
    ensures
        days == year_days(year as int),
{
    if is_leap_year(year) {
        366
    } else {
        365
    }
}

/// The number of days of a month, 1 to 12, of `year`.
fn length_of_month(year: u32, month: u32) -> (days: u32)
    ensures
        days == month_days(year as int, month as int),
{
    if month == 2 {
        if is_leap_year(year) {
            29
        } else {
            28
        }
    } else if month == 4 || month == 6 || month == 9 || month == 11 {
        30
    } else {
        31
    }
}

/// The English name of a month, 1 to 12.
fn name_of_month(month: u32) -> (name: &'static str)
    ensures
        name@ == month_name(month as int),
{
    match month {
        1 => "January",
        2 => "February",
        3 => "March",
        4 => "April",
        5 => "May",
        6 => "June",
        7 => "July",
        8 => "August",
        9 => "September",
        10 => "October",
        11 => "November",
        12 => "December",
        _ => "Month",
    }
}

/// Appends the decimal digits of `n` to `text`.
fn push_decimal(text: &mut String, n: u32)
    ensures
        final(text)@ == old(text)@ + decimal(n as nat),
    decreases n,
{
    if n >= 10 {
        push_decimal(text, n / 10);
    }
    let d: u8 = (n % 10) as u8;
    push_char(text, (0x30 + d) as char);
    assert(final(text)@ =~= old(text)@ + decimal(n as nat));
}

/// The date of a Unix timestamp as text: the month's name, the day of the
/// month in two digits, and the year, with a comma and a space between them.
pub fn format_timestamp(timestamp: u32) -> (text: String)
    ensures
        exists|year: int, month: int, day: int|
            is_date_of(timestamp as int / 86400, year, month, day) && text@ == date_text(
                year,
                month,
                day,
            ),
{
    let (year, month, day) = date_of_day(timestamp / 86400);
    let mut text = String::from_str(name_of_month(month));
    push_char(&mut text, ',');
    push_char(&mut text, ' ');
    if day < 10 {
        push_char(&mut text, '0');
    }
    push_decimal(&mut text, day);
    push_char(&mut text, ',');
    push_char(&mut text, ' ');
    push_decimal(&mut text, year);
    proof {
        assert(text@ =~= date_text(year as int, month as int, day as int));
        assert(is_date_of(timestamp as int / 86400, year as int, month as int, day as int));
    }
    text
}

} // verus!
