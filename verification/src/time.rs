//! Timestamps and their persisted text form.
//!
//! A `Timestamp` is a count of whole seconds since 1970-01-01T00:00:00 UTC.
//! The trash directory stores each deletion date as an RFC-3339 string;
//! `render_rfc3339` writes the canonical `YYYY-MM-DDTHH:MM:SS+00:00` form
//! and `parse_rfc3339` reads any RFC-3339 timestamp back (an optional
//! fractional part is truncated; a leap second or a date outside the years
//! 1970 to 9999 is rejected as unparsable).

use vstd::prelude::*;
use vstd::arithmetic::div_mod::{
    lemma_div_is_ordered, lemma_fundamental_div_mod, lemma_fundamental_div_mod_converse,
    lemma_mod_pos_bound,
};
use crate::digits::{
    all_digits, append_2digits, append_4digits, digit_char, digit_val, digits2, digits4, is_digit,
    lemma_digit_char_val, lemma_digits2_value, lemma_digits4_value, num2, num4,
};

verus! {

/// The last representable second: 9999-12-31T23:59:59 UTC.
pub const MAX_EPOCH_SECS: i64 = 253402300799;

/// A point in time, in whole seconds since the epoch, UTC.
#[derive(Clone, Copy, Debug, PartialEq, Eq, Structural)]
pub struct Timestamp {
    pub secs: i64,
}

/// Is `y` a leap year?
pub open spec fn is_leap_year(y: int) -> bool {
    y % 4 == 0 && (y % 100 != 0 || y % 400 == 0)
}

/// Number of leap years in `[1, y - 1]`.
pub open spec fn leap_count_before(y: int) -> int {
    (y - 1) / 4 - (y - 1) / 100 + (y - 1) / 400
}

/// Days from 1970-01-01 to the first day of year `y`.
pub open spec fn days_before_year(y: int) -> int {
    365 * (y - 1970) + leap_count_before(y) - leap_count_before(1970)
}

pub open spec fn days_in_year(y: int) -> int {
    if is_leap_year(y) {
        366
    } else {
        365
    }
}

pub open spec fn days_in_month(y: int, m: int) -> int {
    if m == 2 {
        if is_leap_year(y) {
            29
        } else {
            28
        }
    } else if m == 4 || m == 6 || m == 9 || m == 11 {
        30
    } else {
        31
    }
}

/// Days from the first day of year `y` to the first day of its month `m`.
pub open spec fn days_before_month(y: int, m: int) -> int
    decreases m,
{
    if m <= 1 {
        0
    } else {
        days_before_month(y, m - 1) + days_in_month(y, m - 1)
    }
}

/// A calendar date this library can store.
pub open spec fn valid_ymd(y: int, m: int, d: int) -> bool {
    1970 <= y <= 9999 && 1 <= m <= 12 && 1 <= d <= days_in_month(y, m)
}

/// Days from 1970-01-01 to the date `y-m-d`.
pub open spec fn days_of_ymd(y: int, m: int, d: int) -> int {
    days_before_year(y) + days_before_month(y, m) + (d - 1)
}

/// Seconds since the epoch of day number `days` at `h:mi:s`.
pub open spec fn secs_of_dhms(days: int, h: int, mi: int, s: int) -> int {
    days * 86400 + h * 3600 + mi * 60 + s
}

/// The calendar day number a timestamp falls on.
pub open spec fn day_of(secs: int) -> int {
    secs / 86400
}

impl Timestamp {
    /// In range of the supported calendar.
    pub open spec fn valid(&self) -> bool {
        0 <= self.secs <= MAX_EPOCH_SECS
    }

    pub fn new(secs: i64) -> (r: Option<Timestamp>)
        ensures
            0 <= secs <= MAX_EPOCH_SECS ==> r == Some(Timestamp { secs }),
            !(0 <= secs <= MAX_EPOCH_SECS) ==> r is None,
    {
        if 0 <= secs && secs <= MAX_EPOCH_SECS {
            Some(Timestamp { secs })
        } else {
            None
        }
    }

    /// The timestamp a whole number of days later, if it stays in range.
    pub fn checked_add_days(&self, days: u32) -> (r: Option<Timestamp>)
        requires
            self.valid(),
        ensures
            self.secs + days * 86400 <= MAX_EPOCH_SECS ==> r == Some(
                Timestamp { secs: (self.secs + days * 86400) as i64 },
            ),
            self.secs + days * 86400 > MAX_EPOCH_SECS ==> r is None,
    {
        let add: i64 = (days as i64) * 86400;
        if add <= MAX_EPOCH_SECS - self.secs {
            Some(Timestamp { secs: self.secs + add })
        } else {
            None
        }
    }
}

proof fn lemma_div_step(n: int, k: int)
    requires
        n >= 1,
        k >= 1,
    ensures
        (n - 1) / k == n / k - (if n % k == 0 {
            1int
        } else {
            0int
        }),
{
    lemma_fundamental_div_mod(n, k);
    lemma_mod_pos_bound(n, k);
    let q = n / k;
    let r = n % k;
    if r == 0 {
        assert(n - 1 == (q - 1) * k + (k - 1)) by (nonlinear_arith)
            requires
                n == k * q + r,
                r == 0,
        ;
        lemma_fundamental_div_mod_converse(n - 1, k, q - 1, k - 1);
    } else {
        assert(n - 1 == q * k + (r - 1)) by (nonlinear_arith)
            requires
                n == k * q + r,
        ;
        lemma_fundamental_div_mod_converse(n - 1, k, q, r - 1);
    }
}

proof fn lemma_divides_smaller(y: int, a: int, b: int)
    requires
        y >= 0,
        a >= 1,
        b >= 1,
        y % (a * b) == 0,
    ensures
        y % a == 0,
{
    assert(a * b >= 1) by (nonlinear_arith)
        requires
            a >= 1,
            b >= 1,
    ;
    lemma_fundamental_div_mod(y, a * b);
    let q = y / (a * b);
    assert(y == (b * q) * a + 0) by (nonlinear_arith)
        requires
            y == (a * b) * q,
    ;
    assert(b * q >= 0) by (nonlinear_arith)
        requires
            (b * q) * a == y,
            y >= 0,
            a >= 1,
            b >= 1,
    ;
    lemma_fundamental_div_mod_converse(y, a, b * q, 0);
}

proof fn lemma_leap_count_step(y: int)
    requires
        y >= 1,
    ensures
        leap_count_before(y + 1) == leap_count_before(y) + (if is_leap_year(y) {
            1int
        } else {
            0int
        }),
{
    lemma_div_step(y, 4);
    lemma_div_step(y, 100);
    lemma_div_step(y, 400);
    if y % 400 == 0 {
        lemma_divides_smaller(y, 100, 4);
        lemma_divides_smaller(y, 4, 100);
    }
    if y % 100 == 0 {
        lemma_divides_smaller(y, 4, 25);
    }
}

proof fn lemma_days_before_year_step(y: int)
    requires
        y >= 1970,
    ensures
        days_before_year(y + 1) == days_before_year(y) + days_in_year(y),
{
    lemma_leap_count_step(y);
}

proof fn lemma_year_bound()
    ensures
        days_before_year(1970) == 0,
        days_before_year(10000) == 2932897,
{
    assert(leap_count_before(1970) == 477);
    assert(leap_count_before(10000) == 2424);
}

proof fn lemma_months_sum(y: int)
    ensures
        days_before_month(y, 1) == 0,
        days_before_month(y, 2) == 31,
        days_before_month(y, 3) == 59 + leap_adj(y),
        days_before_month(y, 4) == 90 + leap_adj(y),
        days_before_month(y, 5) == 120 + leap_adj(y),
        days_before_month(y, 6) == 151 + leap_adj(y),
        days_before_month(y, 7) == 181 + leap_adj(y),
        days_before_month(y, 8) == 212 + leap_adj(y),
        days_before_month(y, 9) == 243 + leap_adj(y),
        days_before_month(y, 10) == 273 + leap_adj(y),
        days_before_month(y, 11) == 304 + leap_adj(y),
        days_before_month(y, 12) == 334 + leap_adj(y),
        days_before_month(y, 13) == days_in_year(y),
{
    assert(days_before_month(y, 1) == 0);
    assert(days_before_month(y, 2) == days_before_month(y, 1) + days_in_month(y, 1));
    assert(days_before_month(y, 3) == days_before_month(y, 2) + days_in_month(y, 2));
    assert(days_before_month(y, 4) == days_before_month(y, 3) + 31);
    assert(days_before_month(y, 5) == days_before_month(y, 4) + 30);
    assert(days_before_month(y, 6) == days_before_month(y, 5) + 31);
    assert(days_before_month(y, 7) == days_before_month(y, 6) + 30);
    assert(days_before_month(y, 8) == days_before_month(y, 7) + 31);
    assert(days_before_month(y, 9) == days_before_month(y, 8) + 31);
    assert(days_before_month(y, 10) == days_before_month(y, 9) + 30);
    assert(days_before_month(y, 11) == days_before_month(y, 10) + 31);
    assert(days_before_month(y, 12) == days_before_month(y, 11) + 30);
    assert(days_before_month(y, 13) == days_before_month(y, 12) + 31);
}

/// One extra day in and after February of a leap year.
pub open spec fn leap_adj(y: int) -> int {
    if is_leap_year(y) {
        1
    } else {
        0
    }
}

fn is_leap_year_exec(y: i64) -> (r: bool)
    requires
        0 <= y <= 10000,
    ensures
        r == is_leap_year(y as int),
{
    y % 4 == 0 && (y % 100 != 0 || y % 400 == 0)
}

fn days_in_year_exec(y: i64) -> (r: i64)
    requires
        0 <= y <= 10000,
    ensures
        r == days_in_year(y as int),
{
    if is_leap_year_exec(y) {
        366
    } else {
        365
    }
}

fn days_in_month_exec(y: i64, m: i64) -> (r: i64)
    requires
        0 <= y <= 10000,
        1 <= m <= 12,
    ensures
        r == days_in_month(y as int, m as int),
{
    if m == 2 {
        if is_leap_year_exec(y) {
            29
        } else {
            28
        }
    } else if m == 4 || m == 6 || m == 9 || m == 11 {
        30
    } else {
        31
    }
}

fn days_before_month_exec(y: i64, m: i64) -> (r: i64)
    requires
        0 <= y <= 10000,
        1 <= m <= 12,
    ensures
        r == days_before_month(y as int, m as int),
{
    proof {
        lemma_months_sum(y as int);
    }
    let leap: i64 = if is_leap_year_exec(y) && m > 2 {
        1
    } else {
        0
    };
    match m {
        1 => 0,
        2 => 31,
        3 => 59 + leap,
        4 => 90 + leap,
        5 => 120 + leap,
        6 => 151 + leap,
        7 => 181 + leap,
        8 => 212 + leap,
        9 => 243 + leap,
        10 => 273 + leap,
        11 => 304 + leap,
        _ => 334 + leap,
    }
}

/// Day count of a date, by the closed form for whole years.
fn ymd_to_days(y: i64, m: i64, d: i64) -> (r: i64)
    requires
        valid_ymd(y as int, m as int, d as int),
    ensures
        r == days_of_ymd(y as int, m as int, d as int),
        0 <= r <= 2932896,
{
    proof {
        lemma_year_bound();
        lemma_days_before_year_bounds(y as int);
        lemma_months_sum(y as int);
        lemma_days_before_month_bounds(y as int, m as int);
    }
    let before_year = 365 * (y - 1970) + (y - 1) / 4 - (y - 1) / 100 + (y - 1) / 400 - 477;
    let before_month = days_before_month_exec(y, m);
    before_year + before_month + (d - 1)
}

proof fn lemma_days_before_year_bounds(y: int)
    requires
        1970 <= y <= 10000,
    ensures
        0 <= days_before_year(y),
        days_before_year(y) + days_in_year(y) <= 2932897 || y == 10000,
        y <= 9999 ==> days_before_year(y) + days_in_year(y) <= 2932897,
    decreases 10000 - y,
{
    lemma_year_bound();
    if y == 10000 {
    } else {
        lemma_days_before_year_step(y);
        lemma_days_before_year_bounds(y + 1);
    }
}

proof fn lemma_dbm_nonneg(y: int, m: int)
    requires
        1 <= m,
    ensures
        0 <= days_before_month(y, m),
    decreases m,
{
    if m > 1 {
        lemma_dbm_nonneg(y, m - 1);
    }
}

proof fn lemma_days_before_month_bounds(y: int, m: int)
    requires
        1 <= m <= 13,
    ensures
        0 <= days_before_month(y, m),
        days_before_month(y, m) <= days_before_month(y, 13),
        m <= 12 ==> days_before_month(y, m) + days_in_month(y, m) <= days_before_month(y, 13),
    decreases 13 - m,
{
    lemma_dbm_nonneg(y, m);
    if m < 13 {
        assert(days_before_month(y, m + 1) == days_before_month(y, m) + days_in_month(y, m));
        lemma_days_before_month_bounds(y, m + 1);
    }
}

/// Calendar date of a day count.
fn days_to_ymd(days: i64) -> (r: (i64, i64, i64))
    requires
        0 <= days <= 2932896,
    ensures
        valid_ymd(r.0 as int, r.1 as int, r.2 as int),
        days_of_ymd(r.0 as int, r.1 as int, r.2 as int) == days,
{
    proof {
        lemma_year_bound();
    }
    let mut y: i64 = 1970;
    let mut rem: i64 = days;
    while days_in_year_exec(y) <= rem
        invariant
            1970 <= y <= 9999,
            0 <= rem,
            days_before_year(y as int) + rem == days,
            days <= 2932896,
        decreases rem,
    {
        proof {
            lemma_days_before_year_step(y as int);
            if y == 9999 {
                lemma_year_bound();
                assert(false);
            }
        }
        rem = rem - days_in_year_exec(y);
        y = y + 1;
    }
    let ghost rem0 = rem as int;
    let mut m: i64 = 1;
    while m < 12 && days_in_month_exec(y, m) <= rem
        invariant
            1970 <= y <= 9999,
            1 <= m <= 12,
            0 <= rem,
            days_before_month(y as int, m as int) + rem == rem0,
            rem0 < days_in_year(y as int),
            days_before_year(y as int) + rem0 == days,
        decreases 12 - m,
    {
        rem = rem - days_in_month_exec(y, m);
        m = m + 1;
    }
    proof {
        lemma_months_sum(y as int);
        lemma_days_before_month_bounds(y as int, m as int);
        if m == 12 {
            assert(days_before_month(y as int, 13) == days_before_month(y as int, 12)
                + days_in_month(y as int, 12));
        }
        assert(rem < days_in_month(y as int, m as int));
    }
    (y, m, rem + 1)
}

/// Split a second count into day number and time of day.
fn split_secs(secs: i64) -> (r: (i64, i64, i64, i64))
    requires
        0 <= secs <= MAX_EPOCH_SECS,
    ensures
        0 <= r.0 <= 2932896,
        0 <= r.1 < 24,
        0 <= r.2 < 60,
        0 <= r.3 < 60,
        secs_of_dhms(r.0 as int, r.1 as int, r.2 as int, r.3 as int) == secs,
        r.0 == day_of(secs as int),
{
    let days = secs / 86400;
    let rem = secs % 86400;
    let h = rem / 3600;
    let rem2 = rem % 3600;
    let mi = rem2 / 60;
    let s = rem2 % 60;
    proof {
        lemma_fundamental_div_mod(secs as int, 86400);
        lemma_mod_pos_bound(secs as int, 86400);
        lemma_fundamental_div_mod(rem as int, 3600);
        lemma_mod_pos_bound(rem as int, 3600);
        lemma_fundamental_div_mod(rem2 as int, 60);
        lemma_mod_pos_bound(rem2 as int, 60);
        lemma_div_is_ordered(secs as int, MAX_EPOCH_SECS as int, 86400);
        assert(MAX_EPOCH_SECS as int / 86400 == 2932896);
        lemma_div_is_ordered(0, secs as int, 86400);
        lemma_div_is_ordered(rem as int, 86399, 3600);
        lemma_div_is_ordered(0, rem as int, 3600);
        lemma_div_is_ordered(rem2 as int, 3599, 60);
        lemma_div_is_ordered(0, rem2 as int, 60);
    }
    (days, h, mi, s)
}

/// End of the run of digits starting at `i`.
pub open spec fn frac_end(s: Seq<char>, i: int) -> int
    decreases s.len() - i when 0 <= i <= s.len()
{
    if i < s.len() && is_digit(s[i]) {
        frac_end(s, i + 1)
    } else {
        i
    }
}

/// The fixed positions of an RFC-3339 timestamp: `YYYY-MM-DDTHH:MM:SS`.
pub open spec fn date_time_shape(s: Seq<char>) -> bool {
    &&& s.len() >= 20
    &&& is_digit(s[0])
    &&& is_digit(s[1])
    &&& is_digit(s[2])
    &&& is_digit(s[3])
    &&& s[4] == '-'
    &&& is_digit(s[5])
    &&& is_digit(s[6])
    &&& s[7] == '-'
    &&& is_digit(s[8])
    &&& is_digit(s[9])
    &&& (s[10] == 'T' || s[10] == 't')
    &&& is_digit(s[11])
    &&& is_digit(s[12])
    &&& s[13] == ':'
    &&& is_digit(s[14])
    &&& is_digit(s[15])
    &&& s[16] == ':'
    &&& is_digit(s[17])
    &&& is_digit(s[18])
}

/// The numeric offset an RFC-3339 suffix starting at `j` denotes.
pub open spec fn offset_at(s: Seq<char>, j: int) -> Option<int> {
    if j == s.len() - 1 && (s[j] == 'Z' || s[j] == 'z') {
        Some(0)
    } else if j == s.len() - 6 && (s[j] == '+' || s[j] == '-') && is_digit(s[j + 1]) && is_digit(
        s[j + 2],
    ) && s[j + 3] == ':' && is_digit(s[j + 4]) && is_digit(s[j + 5]) && num2(s, j + 1) <= 23
        && num2(s, j + 4) <= 59 {
        if s[j] == '-' {
            Some(-(num2(s, j + 1) * 3600 + num2(s, j + 4) * 60))
        } else {
            Some(num2(s, j + 1) * 3600 + num2(s, j + 4) * 60)
        }
    } else {
        None
    }
}

/// What RFC-3339 parsing makes of a string: the UTC second count, or
/// nothing where the text is not an RFC-3339 timestamp this library can
/// hold (including leap seconds and out-of-range dates).
pub open spec fn parse_rfc3339_spec(s: Seq<char>) -> Option<int> {
    if !date_time_shape(s) {
        None
    } else {
        let y = num4(s, 0);
        let mo = num2(s, 5);
        let d = num2(s, 8);
        let h = num2(s, 11);
        let mi = num2(s, 14);
        let sec = num2(s, 17);
        if !valid_ymd(y, mo, d) || h > 23 || mi > 59 || sec > 59 {
            None
        } else if s[19] == '.' && !(s.len() > 20 && is_digit(s[20])) {
            None
        } else {
            let j = if s[19] == '.' {
                frac_end(s, 21)
            } else {
                19
            };
            match offset_at(s, j) {
                None => None,
                Some(off) => {
                    let total = secs_of_dhms(days_of_ymd(y, mo, d), h, mi, sec) - off;
                    if 0 <= total <= MAX_EPOCH_SECS {
                        Some(total)
                    } else {
                        None
                    }
                },
            }
        }
    }
}

/// The fixed positions of the display form: `YYYY-MM-DD HH:MM:SS`.
pub open spec fn display_shape(s: Seq<char>) -> bool {
    &&& s.len() == 19
    &&& is_digit(s[0])
    &&& is_digit(s[1])
    &&& is_digit(s[2])
    &&& is_digit(s[3])
    &&& s[4] == '-'
    &&& is_digit(s[5])
    &&& is_digit(s[6])
    &&& s[7] == '-'
    &&& is_digit(s[8])
    &&& is_digit(s[9])
    &&& s[10] == ' '
    &&& is_digit(s[11])
    &&& is_digit(s[12])
    &&& s[13] == ':'
    &&& is_digit(s[14])
    &&& is_digit(s[15])
    &&& s[16] == ':'
    &&& is_digit(s[17])
    &&& is_digit(s[18])
}

/// What the absolute display form denotes, read back as a UTC second count.
pub open spec fn parse_display_spec(s: Seq<char>) -> Option<int> {
    if !display_shape(s) {
        None
    } else {
        let y = num4(s, 0);
        let mo = num2(s, 5);
        let d = num2(s, 8);
        let h = num2(s, 11);
        let mi = num2(s, 14);
        let sec = num2(s, 17);
        if !valid_ymd(y, mo, d) || h > 23 || mi > 59 || sec > 59 {
            None
        } else {
            Some(secs_of_dhms(days_of_ymd(y, mo, d), h, mi, sec))
        }
    }
}

/// Is the character at position `j` a digit?
fn is_digit_at(s: &str, j: usize) -> (r: bool)
    requires
        j < s@.len(),
    ensures
        r == is_digit(s@[j as int]),
{
    let c = s.get_char(j);
    let u = c as u32;
    proof {
        assert(u as int == c as int);
    }
    48 <= u && u <= 57
}

/// First position at or after `start` that holds no digit.
fn scan_digits(s: &str, start: usize) -> (r: usize)
    requires
        start <= s@.len(),
    ensures
        r as int == frac_end(s@, start as int),
        start <= r <= s@.len(),
{
    let n = s.unicode_len();
    let mut j = start;
    while j < n && is_digit_at(s, j)
        invariant
            start <= j <= n,
            n == s@.len(),
            frac_end(s@, start as int) == frac_end(s@, j as int),
        decreases n - j,
    {
        j = j + 1;
    }
    proof {
        assert(frac_end(s@, j as int) == j);
    }
    j
}

/// One digit read at position `i`, if there is one.
fn read_digit(s: &str, i: usize) -> (r: Option<u8>)
    requires
        i < s@.len(),
    ensures
        match r {
            Some(d) => is_digit(s@[i as int]) && d == digit_val(s@[i as int]) && d < 10,
            None => !is_digit(s@[i as int]),
        },
{
    let c = s.get_char(i);
    let u = c as u32;
    proof {
        assert(u as int == c as int);
    }
    if 48 <= u && u <= 57 {
        Some((u - 48) as u8)
    } else {
        None
    }
}

/// The two-digit number at position `i`, if both characters are digits.
fn read_num2(s: &str, i: usize) -> (r: Option<u32>)
    requires
        i + 2 <= s@.len(),
        s@.len() <= usize::MAX,
    ensures
        match r {
            Some(v) => is_digit(s@[i as int]) && is_digit(s@[i + 1]) && v == num2(s@, i as int)
                && v < 100,
            None => !(is_digit(s@[i as int]) && is_digit(s@[i + 1])),
        },
{
    match read_digit(s, i) {
        None => None,
        Some(d0) => match read_digit(s, i + 1) {
            None => None,
            Some(d1) => Some(10 * (d0 as u32) + (d1 as u32)),
        },
    }
}

/// The four-digit number at position `i`, if all four characters are digits.
fn read_num4(s: &str, i: usize) -> (r: Option<u32>)
    requires
        i + 4 <= s@.len(),
        s@.len() <= usize::MAX,
    ensures
        match r {
            Some(v) => is_digit(s@[i as int]) && is_digit(s@[i + 1]) && is_digit(s@[i + 2])
                && is_digit(s@[i + 3]) && v == num4(s@, i as int) && v < 10000,
            None => !(is_digit(s@[i as int]) && is_digit(s@[i + 1]) && is_digit(s@[i + 2])
                && is_digit(s@[i + 3])),
        },
{
    match read_num2(s, i) {
        None => None,
        Some(hi) => match read_num2(s, i + 2) {
            None => None,
            Some(lo) => Some(100 * hi + lo),
        },
    }
}

impl Timestamp {
    /// Read an RFC-3339 timestamp, as `parse_rfc3339_spec` names it.
    pub fn parse_rfc3339(s: &str) -> (r: Option<Timestamp>)
        ensures
            match r {
                Some(t) => parse_rfc3339_spec(s@) == Some(t.secs as int) && t.valid(),
                None => parse_rfc3339_spec(s@) is None,
            },
    {
        let n = s.unicode_len();
        if n < 20 {
            return None;
        }
        let y = match read_num4(s, 0) {
            Some(v) => v,
            None => {
                return None;
            },
        };
        if s.get_char(4) != '-' || s.get_char(7) != '-' {
            return None;
        }
        let t10 = s.get_char(10);
        if t10 != 'T' && t10 != 't' {
            return None;
        }
        if s.get_char(13) != ':' || s.get_char(16) != ':' {
            return None;
        }
        let mo = match read_num2(s, 5) {
            Some(v) => v,
            None => {
                return None;
            },
        };
        let d = match read_num2(s, 8) {
            Some(v) => v,
            None => {
                return None;
            },
        };
        let h = match read_num2(s, 11) {
            Some(v) => v,
            None => {
                return None;
            },
        };
        let mi = match read_num2(s, 14) {
            Some(v) => v,
            None => {
                return None;
            },
        };
        let sec = match read_num2(s, 17) {
            Some(v) => v,
            None => {
                return None;
            },
        };
        if y < 1970 || y > 9999 || mo < 1 || mo > 12 {
            return None;
        }
        if d < 1 || (d as i64) > days_in_month_exec(y as i64, mo as i64) {
            return None;
        }
        if h > 23 || mi > 59 || sec > 59 {
            return None;
        }
        let mut j: usize = 19;
        if s.get_char(19) == '.' {
            if n <= 20 {
                return None;
            }
            match read_digit(s, 20) {
                None => {
                    return None;
                },
                Some(_) => {},
            }
            j = scan_digits(s, 21);
        }
        let off: i64 = if j == n - 1 {
            let cj = s.get_char(j);
            if cj == 'Z' || cj == 'z' {
                0
            } else {
                proof {
                    assert(offset_at(s@, j as int) is None);
                }
                return None;
            }
        } else if n >= 6 && j == n - 6 {
            let cj = s.get_char(j);
            if cj != '+' && cj != '-' {
                return None;
            }
            let oh = match read_num2(s, j + 1) {
                Some(v) => v,
                None => {
                    return None;
                },
            };
            if s.get_char(j + 3) != ':' {
                return None;
            }
            let om = match read_num2(s, j + 4) {
                Some(v) => v,
                None => {
                    return None;
                },
            };
            if oh > 23 || om > 59 {
                return None;
            }
            let v = (oh as i64) * 3600 + (om as i64) * 60;
            if cj == '-' {
                -v
            } else {
                v
            }
        } else {
            return None;
        };
        let days = ymd_to_days(y as i64, mo as i64, d as i64);
        let total = days * 86400 + (h as i64) * 3600 + (mi as i64) * 60 + (sec as i64) - off;
        if 0 <= total && total <= MAX_EPOCH_SECS {
            Some(Timestamp { secs: total })
        } else {
            None
        }
    }

    /// Write the canonical RFC-3339 form, `YYYY-MM-DDTHH:MM:SS+00:00`;
    /// parsing reads the same timestamp back.
    pub fn render_rfc3339(&self) -> (r: String)
        requires
            self.valid(),
        ensures
            parse_rfc3339_spec(r@) == Some(self.secs as int),
            r@.len() == 25,
    {
        let (days, h, mi, s) = split_secs(self.secs);
        let (y, mo, d) = days_to_ymd(days);
        let mut out = String::new();
        append_4digits(&mut out, y as u32);
        out.append("-");
        append_2digits(&mut out, mo as u32);
        out.append("-");
        append_2digits(&mut out, d as u32);
        out.append("T");
        append_2digits(&mut out, h as u32);
        out.append(":");
        append_2digits(&mut out, mi as u32);
        out.append(":");
        append_2digits(&mut out, s as u32);
        out.append("+00:00");
        proof {
            reveal_strlit("-");
            reveal_strlit("T");
            reveal_strlit(":");
            reveal_strlit("+00:00");
            let yv = y as int;
            let mov = mo as int;
            let dv = d as int;
            let hv = h as int;
            let miv = mi as int;
            let sv = s as int;
            lemma_digits4_value(yv);
            lemma_digits2_value(mov);
            lemma_digits2_value(dv);
            lemma_digits2_value(hv);
            lemma_digits2_value(miv);
            lemma_digits2_value(sv);
            let v = out@;
            assert(v =~= digits4(yv) + seq!['-'] + digits2(mov) + seq!['-'] + digits2(dv)
                + seq!['T'] + digits2(hv) + seq![':'] + digits2(miv) + seq![':'] + digits2(sv)
                + seq!['+', '0', '0', ':', '0', '0']);
            assert(v.len() == 25);
            assert(v[0] == digits4(yv)[0] && v[1] == digits4(yv)[1] && v[2] == digits4(yv)[2]
                && v[3] == digits4(yv)[3]);
            assert(v[4] == '-' && v[7] == '-' && v[10] == 'T' && v[13] == ':' && v[16] == ':');
            assert(v[5] == digits2(mov)[0] && v[6] == digits2(mov)[1]);
            assert(v[8] == digits2(dv)[0] && v[9] == digits2(dv)[1]);
            assert(v[11] == digits2(hv)[0] && v[12] == digits2(hv)[1]);
            assert(v[14] == digits2(miv)[0] && v[15] == digits2(miv)[1]);
            assert(v[17] == digits2(sv)[0] && v[18] == digits2(sv)[1]);
            assert(v[19] == '+' && v[20] == '0' && v[21] == '0' && v[22] == ':' && v[23] == '0'
                && v[24] == '0');
            assert(date_time_shape(v));
            assert(num4(v, 0) == yv);
            assert(num2(v, 5) == mov && num2(v, 8) == dv);
            assert(num2(v, 11) == hv && num2(v, 14) == miv && num2(v, 17) == sv);
            assert(v[19] != '.');
            assert(is_digit('0')) by {
                lemma_digit_char_val(0);
            }
            assert(num2(v, 20) == 0 && num2(v, 23) == 0);
            assert(offset_at(v, 19) == Some(0int));
            assert(secs_of_dhms(days_of_ymd(yv, mov, dv), hv, miv, sv) == self.secs);
        }
        out
    }

    /// Write the absolute display form, `YYYY-MM-DD HH:MM:SS`; reading it
    /// back gives the same timestamp.
    pub fn render_display(&self) -> (r: String)
        requires
            self.valid(),
        ensures
            parse_display_spec(r@) == Some(self.secs as int),
            r@.len() == 19,
    {
        let (days, h, mi, s) = split_secs(self.secs);
        let (y, mo, d) = days_to_ymd(days);
        let mut out = String::new();
        append_4digits(&mut out, y as u32);
        out.append("-");
        append_2digits(&mut out, mo as u32);
        out.append("-");
        append_2digits(&mut out, d as u32);
        out.append(" ");
        append_2digits(&mut out, h as u32);
        out.append(":");
        append_2digits(&mut out, mi as u32);
        out.append(":");
        append_2digits(&mut out, s as u32);
        proof {
            reveal_strlit("-");
            reveal_strlit(" ");
            reveal_strlit(":");
            let yv = y as int;
            let mov = mo as int;
            let dv = d as int;
            let hv = h as int;
            let miv = mi as int;
            let sv = s as int;
            lemma_digits4_value(yv);
            lemma_digits2_value(mov);
            lemma_digits2_value(dv);
            lemma_digits2_value(hv);
            lemma_digits2_value(miv);
            lemma_digits2_value(sv);
            let v = out@;
            assert(v =~= digits4(yv) + seq!['-'] + digits2(mov) + seq!['-'] + digits2(dv)
                + seq![' '] + digits2(hv) + seq![':'] + digits2(miv) + seq![':'] + digits2(sv));
            assert(v.len() == 19);
            assert(v[0] == digits4(yv)[0] && v[1] == digits4(yv)[1] && v[2] == digits4(yv)[2]
                && v[3] == digits4(yv)[3]);
            assert(v[4] == '-' && v[7] == '-' && v[10] == ' ' && v[13] == ':' && v[16] == ':');
            assert(v[5] == digits2(mov)[0] && v[6] == digits2(mov)[1]);
            assert(v[8] == digits2(dv)[0] && v[9] == digits2(dv)[1]);
            assert(v[11] == digits2(hv)[0] && v[12] == digits2(hv)[1]);
            assert(v[14] == digits2(miv)[0] && v[15] == digits2(miv)[1]);
            assert(v[17] == digits2(sv)[0] && v[18] == digits2(sv)[1]);
            assert(display_shape(v));
            assert(num4(v, 0) == yv);
            assert(num2(v, 5) == mov && num2(v, 8) == dv);
            assert(num2(v, 11) == hv && num2(v, 14) == miv && num2(v, 17) == sv);
            assert(secs_of_dhms(days_of_ymd(yv, mov, dv), hv, miv, sv) == self.secs);
        }
        out
    }
}

} // verus!
