//! Calendar dates in the form `YYYY-MM-DD`, which name the daily to-do files.
use vstd::prelude::*;
use crate::records::{invalid, is_invalid, StoreError};
use crate::text::chars_of;

verus! {

/// Whether `year` is a leap year in the Gregorian calendar.
pub open spec fn leap_year(year: int) -> bool {
    (year % 4 == 0 && year % 100 != 0) || year % 400 == 0
}

/// The number of days in `month` (1 to 12) of `year`.
pub open spec fn days_in_month(year: int, month: int) -> int {
    if month == 2 {
        if leap_year(year) {
            29
        } else {
            28
        }
    } else if month == 4 || month == 6 || month == 9 || month == 11 {
        30
    } else {
        31
    }
}

/// Whether `c` is an ASCII decimal digit.
pub open spec fn is_digit(c: char) -> bool {
    '0' <= c && c <= '9'
}

/// The value of the decimal digit `c`.
pub open spec fn digit_value(c: char) -> int {
    c as int - '0' as int
}

/// Whether `s` has the shape `DDDD-DD-DD` of ten ASCII characters.
pub open spec fn date_shape(s: Seq<char>) -> bool {
    &&& s.len() == 10
    &&& s[4] == '-'
    &&& s[7] == '-'
    &&& forall|i: int| 0 <= i < 10 && i != 4 && i != 7 ==> is_digit(#[trigger] s[i])
}

/// The year of a string of the shape `DDDD-DD-DD`.
pub open spec fn date_year(s: Seq<char>) -> int {
    1000 * digit_value(s[0]) + 100 * digit_value(s[1]) + 10 * digit_value(s[2]) + digit_value(s[3])
}

/// The month of a string of the shape `DDDD-DD-DD`.
pub open spec fn date_month(s: Seq<char>) -> int {
    10 * digit_value(s[5]) + digit_value(s[6])
}

/// The day of a string of the shape `DDDD-DD-DD`.
pub open spec fn date_day(s: Seq<char>) -> int {
    10 * digit_value(s[8]) + digit_value(s[9])
}

/// Whether `s` is a real calendar date written as `YYYY-MM-DD`.
pub open spec fn valid_date(s: Seq<char>) -> bool {
    &&& date_shape(s)
    &&& 1 <= date_month(s) <= 12
    &&& 1 <= date_day(s) <= days_in_month(date_year(s), date_month(s))
}

/// The message of the error for a date that is not valid.
pub open spec fn bad_date_message() -> Seq<char> {
    "日期不正确"@
}

/// Whether `year` is a leap year in the Gregorian calendar.
pub fn is_leap(year: u32) -> (r: bool)
    ensures
        r == leap_year(year as int),
{
    (year % 4 == 0 && year % 100 != 0) || year % 400 == 0
}

fn digit_at(s: &Vec<char>, i: usize) -> (d: u32)
    requires
        i < s.len(),
        is_digit(s@[i as int]),
    ensures
        d == digit_value(s@[i as int]),
        d <= 9,
{
    (s[i] as u32) - ('0' as u32)
}

/// `value` itself when it is a real calendar date written as `YYYY-MM-DD`.
pub fn validate_date(value: &str) -> (r: Result<String, StoreError>)
    ensures
        r is Ok <==> valid_date(value@),
        r matches Ok(v) ==> v@ == value@,
        r matches Err(e) ==> is_invalid(e, bad_date_message()),
{
    let s = chars_of(value);
    if s.len() != 10 {
        return Err(invalid("日期不正确"));
    }
    if s[4] != '-' || s[7] != '-' {
        return Err(invalid("日期不正确"));
    }
    let mut i: usize = 0;
    while i < 10
        invariant
            s@ == value@,
            s.len() == 10,
            i <= 10,
            forall|k: int| 0 <= k < i && k != 4 && k != 7 ==> is_digit(#[trigger] s@[k]),
        decreases 10 - i,
    {
        if i != 4 && i != 7 && !('0' <= s[i] && s[i] <= '9') {
            return Err(invalid("日期不正确"));
        }
        i = i + 1;
    }
    let year = digit_at(&s, 0) * 1000 + digit_at(&s, 1) * 100 + digit_at(&s, 2) * 10 + digit_at(
        &s,
        3,
    );
    let month = digit_at(&s, 5) * 10 + digit_at(&s, 6);
    let day = digit_at(&s, 8) * 10 + digit_at(&s, 9);
    if month < 1 || month > 12 {
        return Err(invalid("日期不正确"));
    }
    let max_day: u32 = if month == 2 {
        if is_leap(year) {
            29
        } else {
            28
        }
    } else if month == 4 || month == 6 || month == 9 || month == 11 {
        30
    } else {
        31
    };
    if day < 1 || day > max_day {
        return Err(invalid("日期不正确"));
    }
    Ok(value.to_owned())
}

/// A date written `YYYY-MM-DD` is accepted exactly when its month is 1 to
/// 12 and its day runs from 1 to the length of that month in the Gregorian
/// calendar: 31 days in January, March, May, July, August, October and
/// December, 30 in April, June, September and November, and 28 in
/// February, or 29 in a year divisible by 4 but not by 100, or by 400.
/// Text of any other shape is refused.
pub proof fn lemma_dates_follow_the_calendar(s: Seq<char>)
    ensures
        !date_shape(s) ==> !valid_date(s),
        date_shape(s) ==> (valid_date(s) <==> ({
            let y = date_year(s);
            let m = date_month(s);
            let d = date_day(s);
            &&& 1 <= d
            &&& {
                ||| (m == 1 || m == 3 || m == 5 || m == 7 || m == 8 || m == 10 || m == 12) && d <= 31
                ||| (m == 4 || m == 6 || m == 9 || m == 11) && d <= 30
                ||| m == 2 && d <= 28
                ||| m == 2 && d == 29 && ((y % 4 == 0 && y % 100 != 0) || y % 400 == 0)
            }
        })),
{
}

/// The digits of a date give its year, month and day: the first four the
/// year, the two after the first `-` the month, the last two the day.
pub proof fn lemma_date_fields(s: Seq<char>)
    requires
        date_shape(s),
    ensures
        0 <= date_year(s) <= 9999,
        date_year(s) == (s[0] as int - 48) * 1000 + (s[1] as int - 48) * 100 + (s[2] as int - 48) * 10 + (s[3] as int - 48),
        date_month(s) == (s[5] as int - 48) * 10 + (s[6] as int - 48),
        date_day(s) == (s[8] as int - 48) * 10 + (s[9] as int - 48),
{
    assert(is_digit(s[0]) && is_digit(s[1]) && is_digit(s[2]) && is_digit(s[3]));
}

} // verus!
