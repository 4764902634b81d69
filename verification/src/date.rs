//! Calendar dates for daily rate series.
//!
//! A date is carried as a day number in the proleptic Gregorian calendar,
//! with January 1 of year 1 as day 1 (the convention chrono's
//! `num_days_from_ce` uses). Day numbers make the daily grid of a series a
//! contiguous integer range; the civil form (year, month, day) appears only
//! at the text edges, in `YYYY-MM-DD` form. Years 1 through 9999 are
//! supported, which keeps the text form at a fixed width.

use chrono::Datelike;
use vstd::prelude::*;
use vstd::string::StrSliceExecFns;
use vstd::string::StringExecFns;

verus! {

// ---------------------------------------------------------------------------
// Calendar arithmetic.
// ---------------------------------------------------------------------------

pub open spec fn is_leap_year(y: int) -> bool {
    (y % 4 == 0 && y % 100 != 0) || y % 400 == 0
}

pub open spec fn days_in_year(y: int) -> int {
    if is_leap_year(y) {
        366
    } else {
        365
    }
}

/// Days in all years strictly before year `y`, so `days_before_year(1) == 0`.
pub open spec fn days_before_year(y: int) -> int
    decreases y,
{
    if y <= 1 {
        0
    } else {
        days_before_year(y - 1) + days_in_year(y - 1)
    }
}

pub open spec fn days_in_month(y: int, m: int) -> int {
    if m == 2 {
        if is_leap_year(y) {
            29
        } else {
            28
        }
    } else if m == 4 || m == 6 || m == 9 || m == 11 {
        30
    } else {
        31
    }
}

/// Days of year `y` in all months strictly before month `m`.
pub open spec fn days_before_month(y: int, m: int) -> int
    decreases m,
{
    if m <= 1 {
        0
    } else {
        days_before_month(y, m - 1) + days_in_month(y, m - 1)
    }
}

pub open spec fn is_valid_ymd(y: int, m: int, d: int) -> bool {
    1 <= y <= 9999 && 1 <= m <= 12 && 1 <= d <= days_in_month(y, m)
}

/// The day number of a civil date; `day_number(1, 1, 1) == 1`.
pub open spec fn day_number(y: int, m: int, d: int) -> int {
    days_before_year(y) + days_before_month(y, m) + d
}

/// The day number of December 31, 9999, the last date the text form covers.
pub open spec fn last_supported_day() -> int {
    days_before_year(10000)
}

pub open spec fn is_supported_day(day: int) -> bool {
    1 <= day <= last_supported_day()
}

// ---------------------------------------------------------------------------
// Lemmas about the calendar.
// ---------------------------------------------------------------------------

/// Later years begin later, by at least 365 and at most 366 days a year.
pub proof fn lemma_days_before_year_monotone(a: int, b: int)
    requires
        1 <= a <= b,
    ensures
        days_before_year(b) - days_before_year(a) >= 365 * (b - a),
        days_before_year(b) - days_before_year(a) <= 366 * (b - a),
        days_before_year(a) <= days_before_year(b),
    decreases b - a,
{
    if a < b {
        lemma_days_before_year_monotone(a, b - 1);
        assert(days_before_year(b) == days_before_year(b - 1) + days_in_year(b - 1));
        assert(365 * (b - a) == 365 * (b - 1 - a) + 365);
        assert(366 * (b - a) == 366 * (b - 1 - a) + 366);
    }
}

/// The twelve months of a year cover the year exactly.
pub proof fn lemma_months_cover_year(y: int)
    ensures
        days_before_month(y, 13) == days_in_year(y),
{
    reveal_with_fuel(days_before_month, 14);
}

/// Later months of one year begin later.
pub proof fn lemma_days_before_month_monotone(y: int, a: int, b: int)
    requires
        1 <= a <= b,
    ensures
        days_before_month(y, a) <= days_before_month(y, b),
        b > a ==> days_before_month(y, a) + days_in_month(y, a) <= days_before_month(y, b),
    decreases b - a,
{
    if a < b {
        assert(days_before_month(y, a + 1) == days_before_month(y, a) + days_in_month(y, a));
        lemma_days_before_month_monotone(y, a + 1, b);
    }
}

/// A valid date lands strictly inside its own year's span of day numbers.
pub proof fn lemma_day_number_in_year(y: int, m: int, d: int)
    requires
        is_valid_ymd(y, m, d),
    ensures
        days_before_year(y) + 1 <= day_number(y, m, d),
        day_number(y, m, d) <= days_before_year(y + 1),
        is_supported_day(day_number(y, m, d)),
    decreases m,
{
    lemma_days_before_month_monotone(y, 1, m);
    lemma_days_before_month_monotone(y, m + 1, 13);
    lemma_months_cover_year(y);
    assert(days_before_month(y, m) + d <= days_before_month(y, m + 1));
    assert(day_number(y, m, d) <= days_before_year(y) + days_in_year(y));
    assert(days_before_year(y) + days_in_year(y) == days_before_year(y + 1));
    lemma_days_before_year_monotone(1, y);
    lemma_days_before_year_monotone(y + 1, 10000);
}

/// No two valid civil dates share a day number.
pub proof fn lemma_day_number_unique(y1: int, m1: int, d1: int, y2: int, m2: int, d2: int)
    requires
        is_valid_ymd(y1, m1, d1),
        is_valid_ymd(y2, m2, d2),
        day_number(y1, m1, d1) == day_number(y2, m2, d2),
    ensures
        y1 == y2 && m1 == m2 && d1 == d2,
{
    lemma_day_number_in_year(y1, m1, d1);
    lemma_day_number_in_year(y2, m2, d2);
    if y1 < y2 {
        lemma_days_before_year_monotone(y1 + 1, y2);
        assert(false);
    }
    if y2 < y1 {
        lemma_days_before_year_monotone(y2 + 1, y1);
        assert(false);
    }
    if m1 < m2 {
        lemma_days_before_month_monotone(y1, m1, m2);
        assert(false);
    }
    if m2 < m1 {
        lemma_days_before_month_monotone(y1, m2, m1);
        assert(false);
    }
}

/// Every supported day number is the day number of some valid civil date.
pub proof fn lemma_supported_day_has_ymd(day: int)
    requires
        is_supported_day(day),
    ensures
        exists|t: (int, int, int)|
            is_valid_ymd(t.0, t.1, t.2) && day_number(t.0, t.1, t.2) == day,
    decreases day,
{
    if day == 1 {
        let w = (1int, 1int, 1int);
        assert(is_valid_ymd(w.0, w.1, w.2) && day_number(w.0, w.1, w.2) == day);
    } else {
        lemma_supported_day_has_ymd(day - 1);
        let t = choose|t: (int, int, int)|
            is_valid_ymd(t.0, t.1, t.2) && day_number(t.0, t.1, t.2) == day - 1;
        let y = t.0;
        let m = t.1;
        let d = t.2;
        if d < days_in_month(y, m) {
            let w = (y, m, d + 1);
            assert(is_valid_ymd(w.0, w.1, w.2) && day_number(w.0, w.1, w.2) == day);
        } else if m < 12 {
            let w = (y, m + 1, 1int);
            assert(days_before_month(y, m + 1) == days_before_month(y, m) + days_in_month(y, m));
            assert(is_valid_ymd(w.0, w.1, w.2) && day_number(w.0, w.1, w.2) == day);
        } else {
            lemma_months_cover_year(y);
            assert(days_before_month(y, 13) == days_before_month(y, 12) + days_in_month(y, 12));
            assert(day == days_before_year(y) + days_in_year(y) + 1);
            assert(days_before_year(y + 1) == days_before_year(y) + days_in_year(y));
            if y + 1 > 9999 {
                lemma_days_before_year_monotone(10000, y + 1);
                assert(false);
            }
            let w = (y + 1, 1int, 1int);
            assert(is_valid_ymd(w.0, w.1, w.2) && day_number(w.0, w.1, w.2) == day);
        }
    }
}

/// The civil date of a supported day number.
pub open spec fn ymd_of_day(day: int) -> (int, int, int) {
    choose|t: (int, int, int)| is_valid_ymd(t.0, t.1, t.2) && day_number(t.0, t.1, t.2) == day
}

/// For supported day numbers, `ymd_of_day` is the inverse of `day_number`.
pub proof fn lemma_ymd_of_day(day: int)
    requires
        is_supported_day(day),
    ensures
        is_valid_ymd(ymd_of_day(day).0, ymd_of_day(day).1, ymd_of_day(day).2),
        day_number(ymd_of_day(day).0, ymd_of_day(day).1, ymd_of_day(day).2) == day,
{
    lemma_supported_day_has_ymd(day);
}

// ---------------------------------------------------------------------------
// Executable calendar arithmetic.
// ---------------------------------------------------------------------------

/// Whether year `y` is a leap year.
pub fn leap_year(y: i64) -> (r: bool)
    requires
        1 <= y <= 10000,
    ensures
        r == is_leap_year(y as int),
{
    (y % 4 == 0 && y % 100 != 0) || y % 400 == 0
}

/// The number of days of year `y`.
pub fn year_length(y: i64) -> (r: i64)
    requires
        1 <= y <= 10000,
    ensures
        r == days_in_year(y as int),
{
    if leap_year(y) {
        366
    } else {
        365
    }
}

/// The number of days of month `m` of year `y`.
pub fn month_length(y: i64, m: i64) -> (r: i64)
    requires
        1 <= y <= 10000,
        1 <= m <= 12,
    ensures
        r == days_in_month(y as int, m as int),
{
    if m == 2 {
        if leap_year(y) {
            29
        } else {
            28
        }
    } else if m == 4 || m == 6 || m == 9 || m == 11 {
        30
    } else {
        31
    }
}

/// The day number of a valid civil date.
pub fn day_from_ymd(y: i64, m: i64, d: i64) -> (r: i64)
    requires
        is_valid_ymd(y as int, m as int, d as int),
    ensures
        r == day_number(y as int, m as int, d as int),
        is_supported_day(r as int),
{
    let mut acc: i64 = 0;
    let mut i: i64 = 1;
    while i < y
        invariant
            1 <= i <= y <= 9999,
            acc == days_before_year(i as int),
            0 <= acc <= 366 * (i - 1),
        decreases y - i,
    {
        acc = acc + year_length(i);
        i = i + 1;
    }
    let mut j: i64 = 1;
    while j < m
        invariant
            1 <= j <= m <= 12,
            1 <= y <= 9999,
            acc == days_before_year(y as int) + days_before_month(y as int, j as int),
            0 <= acc <= 366 * (y - 1) + 31 * (j - 1),
        decreases m - j,
    {
        acc = acc + month_length(y, j);
        j = j + 1;
    }
    proof {
        lemma_day_number_in_year(y as int, m as int, d as int);
    }
    acc + d
}

/// The civil date of a supported day number.
pub fn ymd_from_day(day: i64) -> (r: (i64, i64, i64))
    requires
        is_supported_day(day as int),
    ensures
        is_valid_ymd(r.0 as int, r.1 as int, r.2 as int),
        day_number(r.0 as int, r.1 as int, r.2 as int) == day,
        ymd_of_day(day as int) == (r.0 as int, r.1 as int, r.2 as int),
{
    let mut y: i64 = 1;
    let mut rem: i64 = day;
    loop
        invariant
            1 <= y <= 9999,
            1 <= rem,
            day == days_before_year(y as int) + rem,
            is_supported_day(day as int),
        ensures
            1 <= y <= 9999,
            1 <= rem <= days_in_year(y as int),
            day == days_before_year(y as int) + rem,
        decreases last_supported_day() - days_before_year(y as int),
    {
        let len = year_length(y);
        if rem <= len {
            break;
        }
        proof {
            if y + 1 > 9999 {
                assert(days_before_year(10000int) == days_before_year(9999int) + days_in_year(
                    9999int,
                ));
                assert(false);
            }
            lemma_days_before_year_monotone(y as int, y + 1);
        }
        rem = rem - len;
        y = y + 1;
    }
    let mut m: i64 = 1;
    loop
        invariant
            1 <= y <= 9999,
            1 <= m <= 12,
            1 <= rem,
            rem + days_before_month(y as int, m as int) <= days_in_year(y as int),
            day == days_before_year(y as int) + days_before_month(y as int, m as int) + rem,
        ensures
            1 <= m <= 12,
            1 <= rem <= days_in_month(y as int, m as int),
            day == days_before_year(y as int) + days_before_month(y as int, m as int) + rem,
        decreases 12 - m,
    {
        let len = month_length(y, m);
        if rem <= len {
            break;
        }
        proof {
            if m + 1 > 12 {
                lemma_months_cover_year(y as int);
                assert(days_before_month(y as int, 13int) == days_before_month(y as int, 12int)
                    + days_in_month(y as int, 12int));
                assert(false);
            }
        }
        rem = rem - len;
        m = m + 1;
    }
    proof {
        lemma_ymd_of_day(day as int);
        lemma_day_number_unique(
            ymd_of_day(day as int).0,
            ymd_of_day(day as int).1,
            ymd_of_day(day as int).2,
            y as int,
            m as int,
            rem as int,
        );
    }
    (y, m, rem)
}

// ---------------------------------------------------------------------------
// The `YYYY-MM-DD` text form.
// ---------------------------------------------------------------------------

pub open spec fn digit_char(n: int) -> char {
    if n == 0 {
        '0'
    } else if n == 1 {
        '1'
    } else if n == 2 {
        '2'
    } else if n == 3 {
        '3'
    } else if n == 4 {
        '4'
    } else if n == 5 {
        '5'
    } else if n == 6 {
        '6'
    } else if n == 7 {
        '7'
    } else if n == 8 {
        '8'
    } else {
        '9'
    }
}

pub open spec fn is_digit_char(c: char) -> bool {
    48 <= c as u32 <= 57
}

pub open spec fn digit_val(c: char) -> int {
    c as u32 - 48
}

/// The ten characters `YYYY-MM-DD` of a civil date.
pub open spec fn date_chars(y: int, m: int, d: int) -> Seq<char> {
    seq![
        digit_char(y / 1000 % 10),
        digit_char(y / 100 % 10),
        digit_char(y / 10 % 10),
        digit_char(y % 10),
        '-',
        digit_char(m / 10 % 10),
        digit_char(m % 10),
        '-',
        digit_char(d / 10 % 10),
        digit_char(d % 10),
    ]
}

/// The ten characters `YYYY-MM-DD` of a supported day number.
pub open spec fn date_chars_of_day(day: int) -> Seq<char> {
    date_chars(ymd_of_day(day).0, ymd_of_day(day).1, ymd_of_day(day).2)
}

pub open spec fn text_year(s: Seq<char>) -> int {
    digit_val(s[0]) * 1000 + digit_val(s[1]) * 100 + digit_val(s[2]) * 10 + digit_val(s[3])
}

pub open spec fn text_month(s: Seq<char>) -> int {
    digit_val(s[5]) * 10 + digit_val(s[6])
}

pub open spec fn text_dom(s: Seq<char>) -> int {
    digit_val(s[8]) * 10 + digit_val(s[9])
}

/// Whether `s` is the `YYYY-MM-DD` form of a valid civil date.
pub open spec fn is_date_text(s: Seq<char>) -> bool {
    &&& s.len() == 10
    &&& is_digit_char(s[0])
    &&& is_digit_char(s[1])
    &&& is_digit_char(s[2])
    &&& is_digit_char(s[3])
    &&& s[4] == '-'
    &&& is_digit_char(s[5])
    &&& is_digit_char(s[6])
    &&& s[7] == '-'
    &&& is_digit_char(s[8])
    &&& is_digit_char(s[9])
    &&& is_valid_ymd(text_year(s), text_month(s), text_dom(s))
}

/// The day number a piece of text denotes, if it is a date at all.
pub open spec fn parse_date_spec(s: Seq<char>) -> Option<int> {
    if is_date_text(s) {
        Some(day_number(text_year(s), text_month(s), text_dom(s)))
    } else {
        None
    }
}

/// The one-character text of a decimal digit.
fn digit_str(n: i64) -> (r: &'static str)
    requires
        0 <= n <= 9,
    ensures
        r@ == seq![digit_char(n as int)],
{
    proof {
        reveal_strlit("0");
        reveal_strlit("1");
        reveal_strlit("2");
        reveal_strlit("3");
        reveal_strlit("4");
        reveal_strlit("5");
        reveal_strlit("6");
        reveal_strlit("7");
        reveal_strlit("8");
        reveal_strlit("9");
    }
    let r: &'static str = if n == 0 {
        "0"
    } else if n == 1 {
        "1"
    } else if n == 2 {
        "2"
    } else if n == 3 {
        "3"
    } else if n == 4 {
        "4"
    } else if n == 5 {
        "5"
    } else if n == 6 {
        "6"
    } else if n == 7 {
        "7"
    } else if n == 8 {
        "8"
    } else {
        "9"
    };
    proof {
        assert(r@ =~= seq![digit_char(n as int)]);
    }
    r
}

/// Formats a supported day number as `YYYY-MM-DD`.
pub fn format_date(day: i64) -> (r: String)
    requires
        is_supported_day(day as int),
    ensures
        r@ == date_chars_of_day(day as int),
        is_date_text(r@),
{
    proof {
        reveal_strlit("-");
    }
    let (y, m, d) = ymd_from_day(day);
    let mut s = String::from_str(digit_str(y / 1000));
    s.append(digit_str((y / 100) % 10));
    s.append(digit_str((y / 10) % 10));
    s.append(digit_str(y % 10));
    s.append("-");
    s.append(digit_str(m / 10));
    s.append(digit_str(m % 10));
    s.append("-");
    s.append(digit_str(d / 10));
    s.append(digit_str(d % 10));
    proof {
        assert(s@ =~= date_chars(y as int, m as int, d as int));
        lemma_digit_round_trip(y as int, m as int, d as int);
    }
    s
}

/// A decimal digit survives the round trip through its character.
proof fn lemma_digit(n: int)
    requires
        0 <= n <= 9,
    ensures
        is_digit_char(digit_char(n)),
        digit_val(digit_char(n)) == n,
{
}

/// Reading the ten characters of a date back yields the date itself.
pub proof fn lemma_digit_round_trip(y: int, m: int, d: int)
    requires
        is_valid_ymd(y, m, d),
    ensures
        is_date_text(date_chars(y, m, d)),
        text_year(date_chars(y, m, d)) == y,
        text_month(date_chars(y, m, d)) == m,
        text_dom(date_chars(y, m, d)) == d,
{
    let s = date_chars(y, m, d);
    lemma_digit(y / 1000 % 10);
    lemma_digit(y / 100 % 10);
    lemma_digit(y / 10 % 10);
    lemma_digit(y % 10);
    lemma_digit(m / 10 % 10);
    lemma_digit(m % 10);
    lemma_digit(d / 10 % 10);
    lemma_digit(d % 10);
    assert(y == y / 1000 % 10 * 1000 + y / 100 % 10 * 100 + y / 10 % 10 * 10 + y % 10) by (nonlinear_arith)
        requires 1 <= y <= 9999;
    assert(m == m / 10 % 10 * 10 + m % 10) by (nonlinear_arith)
        requires 1 <= m <= 12;
    assert(d == d / 10 % 10 * 10 + d % 10) by (nonlinear_arith)
        requires 1 <= d <= 31;
}

/// The text of a date holds only digits and dashes: no separator of the
/// surrounding table formats occurs in it.
pub proof fn lemma_date_chars_no_separators(y: int, m: int, d: int)
    requires
        is_valid_ymd(y, m, d),
    ensures
        forall|i: int|
            0 <= i < date_chars(y, m, d).len() ==> (#[trigger] date_chars(y, m, d)[i]) != ','
                && date_chars(y, m, d)[i] != '\n' && date_chars(y, m, d)[i] != '\r',
{
    lemma_digit(y / 1000 % 10);
    lemma_digit(y / 100 % 10);
    lemma_digit(y / 10 % 10);
    lemma_digit(y % 10);
    lemma_digit(m / 10 % 10);
    lemma_digit(m % 10);
    lemma_digit(d / 10 % 10);
    lemma_digit(d % 10);
}

/// Parses `YYYY-MM-DD` text; `None` exactly when the text is not the date
/// form of a valid civil date.
pub fn parse_date(s: &str) -> (r: Option<i64>)
    ensures
        r matches Some(day) ==> parse_date_spec(s@) == Some(day as int) && is_supported_day(
            day as int,
        ),
        r is None ==> parse_date_spec(s@) is None,
{
    let n = s.unicode_len();
    if n != 10 {
        return None;
    }
    let c0 = s.get_char(0) as u32;
    let c1 = s.get_char(1) as u32;
    let c2 = s.get_char(2) as u32;
    let c3 = s.get_char(3) as u32;
    let c4 = s.get_char(4);
    let c5 = s.get_char(5) as u32;
    let c6 = s.get_char(6) as u32;
    let c7 = s.get_char(7);
    let c8 = s.get_char(8) as u32;
    let c9 = s.get_char(9) as u32;
    if !(48 <= c0 && c0 <= 57 && 48 <= c1 && c1 <= 57 && 48 <= c2 && c2 <= 57 && 48 <= c3 && c3
        <= 57 && 48 <= c5 && c5 <= 57 && 48 <= c6 && c6 <= 57 && 48 <= c8 && c8 <= 57 && 48 <= c9
        && c9 <= 57) {
        return None;
    }
    if c4 != '-' || c7 != '-' {
        return None;
    }
    let y: i64 = (c0 - 48) as i64 * 1000 + (c1 - 48) as i64 * 100 + (c2 - 48) as i64 * 10 + (c3
        - 48) as i64;
    let m: i64 = (c5 - 48) as i64 * 10 + (c6 - 48) as i64;
    let d: i64 = (c8 - 48) as i64 * 10 + (c9 - 48) as i64;
    if y < 1 || m < 1 || m > 12 {
        return None;
    }
    if d < 1 || d > month_length(y, m) {
        return None;
    }
    let day = day_from_ymd(y, m, d);
    Some(day)
}

// ---------------------------------------------------------------------------
// The clock.
// ---------------------------------------------------------------------------

/// Relies on chrono's `Local::now`, `date_naive` and `num_days_from_ce`: the
/// current calendar date in the local time zone, counted with January 1 of
/// year 1 as day 1. The result depends on the clock and the time zone, so
/// nothing is promised of it, and every caller checks the returned day
/// before trusting it. In pathological environments (a system clock before
/// 1970, unusable time-zone data) chrono itself may panic.
#[verifier::external_body]
pub(crate) fn today_from_clock() -> i64 {
    chrono::Local::now().date_naive().num_days_from_ce() as i64
}

} // verus!
