//! Calendar dates. The log stores a date as the ten characters `YYYY-MM-DD`;
//! this module defines validity (proleptic Gregorian, four-digit year),
//! strict parsing and formatting of that form, and the two facts the library
//! takes from the `chrono` crate: the current local date and the weekday of a
//! date.

use vstd::prelude::*;
use vstd::string::StrSliceExecFns;
use vstd::string::StringExecFns;

use crate::numbers::digit_char;
use crate::numbers::digit_of;
use crate::numbers::is_digit_char;

verus! {

/// A calendar date with a four-digit year.
pub struct Date {
    pub year: u16,
    pub month: u8,
    pub day: u8,
}

pub open spec fn is_leap_year(y: int) -> bool {
    y % 4 == 0 && (y % 100 != 0 || y % 400 == 0)
}

pub open spec fn days_in_month(y: int, m: int) -> int {
    if m == 2 {
        if is_leap_year(y) {
            29
        } else {
            28
        }
    } else if m == 4 || m == 6 || m == 9 || m == 11 {
        30
    } else {
        31
    }
}

/// A real day of the proleptic Gregorian calendar, within a four-digit year.
pub open spec fn valid_ymd(y: int, m: int, d: int) -> bool {
    0 <= y <= 9999 && 1 <= m <= 12 && 1 <= d <= days_in_month(y, m)
}

impl Date {
    pub open spec fn valid(self) -> bool {
        valid_ymd(self.year as int, self.month as int, self.day as int)
    }
}

/// The ten characters `YYYY-MM-DD` for a date, zero-padded.
pub open spec fn date_chars(d: Date) -> Seq<char> {
    seq![
        digit_char((d.year as nat / 1000) % 10),
        digit_char((d.year as nat / 100) % 10),
        digit_char((d.year as nat / 10) % 10),
        digit_char(d.year as nat % 10),
        '-',
        digit_char((d.month as nat / 10) % 10),
        digit_char(d.month as nat % 10),
        '-',
        digit_char((d.day as nat / 10) % 10),
        digit_char(d.day as nat % 10),
    ]
}

/// Whether `s` has the shape `YYYY-MM-DD`: exactly ten characters, digits in
/// the digit positions and dashes between the groups.
pub open spec fn is_date_shaped(s: Seq<char>) -> bool {
    s.len() == 10 && is_digit_char(s[0]) && is_digit_char(s[1]) && is_digit_char(s[2])
        && is_digit_char(s[3]) && s[4] == '-' && is_digit_char(s[5]) && is_digit_char(s[6])
        && s[7] == '-' && is_digit_char(s[8]) && is_digit_char(s[9])
}

pub open spec fn year_of_chars(s: Seq<char>) -> int {
    digit_of(s[0]) * 1000 + digit_of(s[1]) * 100 + digit_of(s[2]) * 10 + digit_of(s[3]) as int
}

pub open spec fn month_of_chars(s: Seq<char>) -> int {
    digit_of(s[5]) * 10 + digit_of(s[6]) as int
}

pub open spec fn day_of_chars(s: Seq<char>) -> int {
    digit_of(s[8]) * 10 + digit_of(s[9]) as int
}

/// Whether `s` is a date field the strict readers accept: shaped `YYYY-MM-DD`
/// and naming a real calendar day.
pub open spec fn is_date_chars(s: Seq<char>) -> bool {
    is_date_shaped(s) && valid_ymd(year_of_chars(s), month_of_chars(s), day_of_chars(s))
}

/// The date a valid date field names.
pub open spec fn date_of_chars(s: Seq<char>) -> Date {
    Date {
        year: year_of_chars(s) as u16,
        month: month_of_chars(s) as u8,
        day: day_of_chars(s) as u8,
    }
}

pub fn days_in_month_exec(y: u16, m: u8) -> (r: u8)
    ensures
        r as int == days_in_month(y as int, m as int),
{
    if m == 2 {
        if y % 4 == 0 && (y % 100 != 0 || y % 400 == 0) {
            29
        } else {
            28
        }
    } else if m == 4 || m == 6 || m == 9 || m == 11 {
        30
    } else {
        31
    }
}

/// Read one digit of `s` at position `i`, or report that it is not a digit.
fn digit_at(s: &str, i: usize) -> (r: Option<u16>)
    requires
        i < s@.len(),
    ensures
        r is Some <==> is_digit_char(s@[i as int]),
        r is Some ==> r->0 as nat == digit_of(s@[i as int]) && r->0 <= 9,
{
    let c = s.get_char(i);
    let code = c as u32;
    if 48 <= code && code <= 57 {
        Some((code - 48) as u16)
    } else {
        None
    }
}

/// Parse a date field strictly as `YYYY-MM-DD`, the way the weekly and
/// monthly readers do: `None` exactly when the field is not ten characters of
/// that shape naming a real calendar day.
pub fn parse_date(s: &str) -> (r: Option<Date>)
    ensures
        r is Some <==> is_date_chars(s@),
        r is Some ==> r->0 == date_of_chars(s@) && r->0.valid(),
{
    if s.unicode_len() != 10 {
        return None;
    }
    if s.get_char(4) != '-' || s.get_char(7) != '-' {
        return None;
    }
    let d0 = match digit_at(s, 0) {
        Some(v) => v,
        None => {
            return None;
        },
    };
    let d1 = match digit_at(s, 1) {
        Some(v) => v,
        None => {
            return None;
        },
    };
    let d2 = match digit_at(s, 2) {
        Some(v) => v,
        None => {
            return None;
        },
    };
    let d3 = match digit_at(s, 3) {
        Some(v) => v,
        None => {
            return None;
        },
    };
    let m0 = match digit_at(s, 5) {
        Some(v) => v,
        None => {
            return None;
        },
    };
    let m1 = match digit_at(s, 6) {
        Some(v) => v,
        None => {
            return None;
        },
    };
    let g0 = match digit_at(s, 8) {
        Some(v) => v,
        None => {
            return None;
        },
    };
    let g1 = match digit_at(s, 9) {
        Some(v) => v,
        None => {
            return None;
        },
    };
    let year: u16 = d0 * 1000 + d1 * 100 + d2 * 10 + d3;
    let month: u8 = (m0 * 10 + m1) as u8;
    let day: u8 = (g0 * 10 + g1) as u8;
    if month < 1 || month > 12 {
        return None;
    }
    if day < 1 || day > days_in_month_exec(year, month) {
        return None;
    }
    Some(Date { year, month, day })
}

/// Write a date as the ten characters `YYYY-MM-DD`, as the log writer does.
pub fn format_date(d: &Date) -> (r: String)
    requires
        d.valid(),
    ensures
        r@ == date_chars(*d),
{
    let mut out = String::new();
    out.append(crate::numbers::digit_str((d.year / 1000) as u64 % 10));
    out.append(crate::numbers::digit_str((d.year / 100) as u64 % 10));
    out.append(crate::numbers::digit_str((d.year / 10) as u64 % 10));
    out.append(crate::numbers::digit_str(d.year as u64 % 10));
    out.append("-");
    out.append(crate::numbers::digit_str((d.month / 10) as u64 % 10));
    out.append(crate::numbers::digit_str(d.month as u64 % 10));
    out.append("-");
    out.append(crate::numbers::digit_str((d.day / 10) as u64 % 10));
    out.append(crate::numbers::digit_str(d.day as u64 % 10));
    proof {
        reveal_strlit("-");
        assert(out@ =~= date_chars(*d));
    }
    out
}

/// A formatted date is a valid date field and reads back as the same date:
/// the append path and the strict readers agree on the format.
pub proof fn lemma_date_round_trip(d: Date)
    requires
        d.valid(),
    ensures
        is_date_chars(date_chars(d)),
        date_of_chars(date_chars(d)) == d,
{
    let s = date_chars(d);
    let y = d.year as nat;
    assert(digit_of(digit_char((y / 1000) % 10)) == (y / 1000) % 10);
    assert(digit_of(digit_char((y / 100) % 10)) == (y / 100) % 10);
    assert(digit_of(digit_char((y / 10) % 10)) == (y / 10) % 10);
    assert(digit_of(digit_char(y % 10)) == y % 10);
    assert(((y / 1000) % 10) * 1000 + ((y / 100) % 10) * 100 + ((y / 10) % 10) * 10 + y % 10
        == y) by (nonlinear_arith)
        requires
            y <= 9999,
    {
    }
    let m = d.month as nat;
    assert(digit_of(digit_char((m / 10) % 10)) == (m / 10) % 10);
    assert(digit_of(digit_char(m % 10)) == m % 10);
    assert(((m / 10) % 10) * 10 + m % 10 == m) by (nonlinear_arith)
        requires
            m <= 12,
    {
    }
    let dd = d.day as nat;
    assert(digit_of(digit_char((dd / 10) % 10)) == (dd / 10) % 10);
    assert(digit_of(digit_char(dd % 10)) == dd % 10);
    assert(((dd / 10) % 10) * 10 + dd % 10 == dd) by (nonlinear_arith)
        requires
            dd <= 31,
    {
    }
}

/// No character of a formatted date is a comma, a newline, a carriage return
/// or a space: a written record line splits back into its three fields.
pub proof fn lemma_date_chars_plain(d: Date)
    ensures
        forall|i: int|
            0 <= i < date_chars(d).len() ==> #[trigger] date_chars(d)[i] != ','
                && date_chars(d)[i] != '\n' && date_chars(d)[i] != '\r',
{
    let s = date_chars(d);
    assert forall|i: int| 0 <= i < s.len() implies #[trigger] s[i] != ',' && s[i] != '\n' && s[i]
        != '\r' by {
        assert(s[i] == '-' || is_digit_char(s[i]));
    }
}

/// What a weekday computation returns for a calendar day: a function of the
/// date alone. Named, not defined: the library takes the value from `chrono`.
pub uninterp spec fn weekday_of(y: int, m: int, d: int) -> int;

/// Relies on `chrono::NaiveDate::from_ymd_opt`, which accepts every real
/// calendar day of a four-digit year, and on
/// `chrono::Weekday::number_from_monday`, which numbers the weekdays 1
/// (Monday) through 7 (Sunday).
#[verifier::external_body]
pub(crate) fn weekday_number(year: u16, month: u8, day: u8) -> (r: u8)
    requires
        valid_ymd(year as int, month as int, day as int),
    ensures
        1 <= r <= 7,
        r as int == weekday_of(year as int, month as int, day as int),
{
    let date = chrono::NaiveDate::from_ymd_opt(year as i32, month as u32, day as u32).unwrap();
    chrono::Datelike::weekday(&date).number_from_monday() as u8
}

/// Relies on `chrono::Local::now` and the `Datelike` accessors of the naive
/// local date: `month` is between 1 and 12 and `day` between 1 and 31. The
/// result depends on the clock, so nothing further is promised of it. Like
/// the `chrono` call itself, this aborts if the system clock is before the
/// Unix epoch or outside the years `chrono` can represent.
#[verifier::external_body]
fn now_ymd() -> (r: (i32, u8, u8))
    ensures
        1 <= r.1 <= 12,
        1 <= r.2 <= 31,
{
    let now = chrono::Local::now().date_naive();
    (chrono::Datelike::year(&now), chrono::Datelike::month(&now) as u8, chrono::Datelike::day(
        &now,
    ) as u8)
}

/// Turn a year, month and day reading into a date: `Some` exactly when the
/// three name a real calendar day of a four-digit year.
pub fn date_from_parts(y: i32, m: u8, d: u8) -> (r: Option<Date>)
    ensures
        r is Some <==> valid_ymd(y as int, m as int, d as int),
        r is Some ==> r->0 == (Date { year: y as u16, month: m, day: d }),
{
    if y < 0 || y > 9999 {
        return None;
    }
    let year = y as u16;
    if m < 1 || m > 12 {
        return None;
    }
    if d < 1 || d > days_in_month_exec(year, m) {
        return None;
    }
    Some(Date { year, month: m, day: d })
}

/// The machine's local calendar date, if the clock names a real day within a
/// four-digit year. Which day that is depends on the clock; what `Some` holds
/// is fixed by `date_from_parts`.
pub fn today_date() -> (r: Option<Date>)
    ensures
        r is Some ==> r->0.valid(),
{
    let (y, m, d) = now_ymd();
    date_from_parts(y, m, d)
}

} // verus!
