//! The epoch-adjusted timestamp: turning a spreadsheet date/time serial
//! number into a calendar date.
//!
//! A serial number counts days from the spreadsheet date system's day zero
//! (1899-12-30 in the proleptic Gregorian calendar). [`ExcelEpoch`] carries
//! one serial value and renders it as `YYYY-MM-DD` text. The calendar date is
//! characterized as the unique valid Gregorian date whose day number (days
//! since 0001-01-01) equals the epoch-adjusted serial.

use vstd::prelude::*;
use vstd::arithmetic::div_mod::*;
use crate::render::{dec_digits, push_dec_digits};

verus! {

/// The day number (days since 0001-01-01) of the spreadsheet date system's
/// day zero, 1899-12-30.
pub const EXCEL_EPOCH_DAYS: i64 = 693593;

/// Gregorian leap year rule.
pub open spec fn is_leap_year(y: int) -> bool {
    (y % 4 == 0 && y % 100 != 0) || y % 400 == 0
}

pub open spec fn days_in_year(y: int) -> int {
    if is_leap_year(y) {
        366
    } else {
        365
    }
}

/// Days from 0001-01-01 to the first day of year `y`, by the closed
/// Gregorian formula (integer divisions round toward negative infinity).
pub open spec fn days_before_year(y: int) -> int {
    365 * (y - 1) + (y - 1) / 4 - (y - 1) / 100 + (y - 1) / 400
}

pub open spec fn days_in_month(y: int, m: int) -> int {
    if m == 2 {
        if is_leap_year(y) {
            29
        } else {
            28
        }
    } else if m == 4 || m == 6 || m == 9 || m == 11 {
        30
    } else {
        31
    }
}

/// Days from the first of January of year `y` to the first day of month `m`.
pub open spec fn days_before_month(y: int, m: int) -> int
    decreases m,
{
    if m <= 1 {
        0
    } else {
        days_before_month(y, m - 1) + days_in_month(y, m - 1)
    }
}

pub open spec fn valid_date(y: int, m: int, d: int) -> bool {
    1 <= m <= 12 && 1 <= d <= days_in_month(y, m)
}

/// The day number (days since 0001-01-01) of the calendar date `y-m-d`.
pub open spec fn days_from_civil(y: int, m: int, d: int) -> int {
    days_before_year(y) + days_before_month(y, m) + (d - 1)
}

/// The calendar date of day number `day`: the unique valid date whose day
/// number is `day` (uniqueness is [`lemma_civil_unique`]).
pub open spec fn civil_of_day(day: int) -> (int, int, int) {
    choose|t: (int, int, int)|
        valid_date(t.0, t.1, t.2) && days_from_civil(t.0, t.1, t.2) == day
}

proof fn lemma_div_step(a: int, d: int)
    requires
        d > 0,
    ensures
        (a + 1) / d == a / d + if (a + 1) % d == 0 {
            1int
        } else {
            0int
        },
{
    lemma_fundamental_div_mod(a, d);
    lemma_mod_division_less_than_divisor(a, d);
    let q = a / d;
    let r = a % d;
    assert((q + 1) * d == d * q + d) by (nonlinear_arith);
    assert(q * d == d * q) by (nonlinear_arith);
    if r == d - 1 {
        lemma_fundamental_div_mod_converse(a + 1, d, q + 1, 0);
    } else {
        lemma_fundamental_div_mod_converse(a + 1, d, q, r + 1);
    }
}

/// Stepping the year-start day count by one year adds that year's length.
proof fn lemma_days_before_year_step(y: int)
    ensures
        days_before_year(y + 1) == days_before_year(y) + days_in_year(y),
{
    lemma_div_step(y - 1, 4);
    lemma_div_step(y - 1, 100);
    lemma_div_step(y - 1, 400);
    if y % 100 == 0 {
        lemma_fundamental_div_mod(y, 100);
        assert(y == (25 * (y / 100)) * 4);
        lemma_fundamental_div_mod_converse(y, 4, 25 * (y / 100), 0);
    }
    if y % 400 == 0 {
        lemma_fundamental_div_mod(y, 400);
        assert(y == (4 * (y / 400)) * 100);
        lemma_fundamental_div_mod_converse(y, 100, 4 * (y / 400), 0);
    }
}

/// A 400-year era spans exactly 146097 days.
proof fn lemma_days_before_year_era(q: int)
    ensures
        days_before_year(400 * q + 1) == 146097 * q,
{
    assert(400 * q == 4 * (100 * q));
    lemma_div_multiples_vanish(100 * q, 4);
    assert(400 * q == 100 * (4 * q));
    lemma_div_multiples_vanish(4 * q, 100);
    assert(400 * q == 400 * q);
    lemma_div_multiples_vanish(q, 400);
}

proof fn lemma_days_before_year_mono(y1: int, y2: int)
    requires
        y1 <= y2,
    ensures
        days_before_year(y1) <= days_before_year(y2),
    decreases y2 - y1,
{
    if y1 < y2 {
        lemma_days_before_year_mono(y1, y2 - 1);
        lemma_days_before_year_step(y2 - 1);
    }
}

proof fn lemma_days_before_month_mono(y: int, m1: int, m2: int)
    requires
        m1 <= m2,
    ensures
        days_before_month(y, m1) <= days_before_month(y, m2),
    decreases m2 - m1,
{
    if m1 < m2 {
        lemma_days_before_month_mono(y, m1, m2 - 1);
    }
}

proof fn lemma_days_before_month_13(y: int)
    ensures
        days_before_month(y, 13) == days_in_year(y),
{
    reveal_with_fuel(days_before_month, 14);
}

/// A valid date falls inside its own year's span of days.
proof fn lemma_date_in_year_range(y: int, m: int, d: int)
    requires
        valid_date(y, m, d),
    ensures
        0 <= days_before_month(y, m) + (d - 1) < days_in_year(y),
{
    lemma_days_before_month_mono(y, 1, m);
    assert(days_before_month(y, m + 1) == days_before_month(y, m) + days_in_month(y, m));
    lemma_days_before_month_mono(y, m + 1, 13);
    lemma_days_before_month_13(y);
}

/// The epoch constant is the day number of 1899-12-30, the date system's
/// day zero.
pub proof fn lemma_epoch_is_day_zero()
    ensures
        valid_date(1899, 12, 30),
        days_from_civil(1899, 12, 30) == EXCEL_EPOCH_DAYS as int,
{
    reveal_with_fuel(days_before_month, 14);
}

/// Two valid calendar dates with the same day number are the same date.
pub proof fn lemma_civil_unique(y1: int, m1: int, d1: int, y2: int, m2: int, d2: int)
    requires
        valid_date(y1, m1, d1),
        valid_date(y2, m2, d2),
        days_from_civil(y1, m1, d1) == days_from_civil(y2, m2, d2),
    ensures
        y1 == y2 && m1 == m2 && d1 == d2,
{
    lemma_date_in_year_range(y1, m1, d1);
    lemma_date_in_year_range(y2, m2, d2);
    if y1 < y2 {
        lemma_days_before_year_step(y1);
        lemma_days_before_year_mono(y1 + 1, y2);
        assert(false);
    }
    if y2 < y1 {
        lemma_days_before_year_step(y2);
        lemma_days_before_year_mono(y2 + 1, y1);
        assert(false);
    }
    if m1 < m2 {
        assert(days_before_month(y1, m1 + 1) == days_before_month(y1, m1) + days_in_month(
            y1,
            m1,
        ));
        lemma_days_before_month_mono(y1, m1 + 1, m2);
        assert(false);
    }
    if m2 < m1 {
        assert(days_before_month(y1, m2 + 1) == days_before_month(y1, m2) + days_in_month(
            y1,
            m2,
        ));
        lemma_days_before_month_mono(y1, m2 + 1, m1);
        assert(false);
    }
}

/// Whether `d` divides `y`, for a possibly negative `y`.
fn divisible(y: i128, d: u128) -> (b: bool)
    requires
        0 < d <= 1000,
        -100_000_000_000_000_000_000 <= y <= 100_000_000_000_000_000_000,
    ensures
        b == ((y as int) % (d as int) == 0),
{
    let ghost di = d as int;
    if y >= 0 {
        let u: u128 = y as u128;
        u % d == 0
    } else {
        let u: u128 = (-y) as u128;
        let b = u % d == 0;
        proof {
            lemma_mod_division_less_than_divisor(u as int, di);
            lemma_mod_division_less_than_divisor(y as int, di);
            if u as int % di == 0 {
                lemma_fundamental_div_mod(u as int, di);
                assert((-(u as int / di)) * di == -(di * (u as int / di))) by (nonlinear_arith);
                assert(y as int == (-(u as int / di)) * di + 0);
                lemma_fundamental_div_mod_converse(y as int, di, -(u as int / di), 0);
            } else {
                if y as int % di == 0 {
                    lemma_fundamental_div_mod(y as int, di);
                    assert((-(y as int / di)) * di == -(di * (y as int / di))) by (nonlinear_arith);
                    assert(u as int == (-(y as int / di)) * di + 0);
                    lemma_fundamental_div_mod_converse(u as int, di, -(y as int / di), 0);
                    assert(false);
                }
            }
        }
        b
    }
}

fn is_leap_year_exec(y: i128) -> (b: bool)
    requires
        -100_000_000_000_000_000_000 <= y <= 100_000_000_000_000_000_000,
    ensures
        b == is_leap_year(y as int),
{
    (divisible(y, 4) && !divisible(y, 100)) || divisible(y, 400)
}

fn days_in_year_exec(y: i128) -> (n: u64)
    requires
        -100_000_000_000_000_000_000 <= y <= 100_000_000_000_000_000_000,
    ensures
        n == days_in_year(y as int),
{
    if is_leap_year_exec(y) {
        366
    } else {
        365
    }
}

fn days_in_month_exec(y: i128, m: u64) -> (n: u64)
    requires
        -100_000_000_000_000_000_000 <= y <= 100_000_000_000_000_000_000,
        1 <= m <= 12,
    ensures
        n == days_in_month(y as int, m as int),
{
    if m == 2 {
        if is_leap_year_exec(y) {
            29
        } else {
            28
        }
    } else if m == 4 || m == 6 || m == 9 || m == 11 {
        30
    } else {
        31
    }
}

/// Splits a day count into a 400-year era index and an offset within the era.
fn split_era(days: i128) -> (qr: (i128, i128))
    requires
        -10_000_000_000_000_000_000 <= days <= 10_000_000_000_000_000_000,
    ensures
        days == qr.0 * 146097 + qr.1,
        0 <= qr.1 < 146097,
        -70_000_000_000_000 <= qr.0 <= 70_000_000_000_000,
{
    if days >= 0 {
        let u: u128 = days as u128;
        let q: u128 = u / 146097;
        let r: u128 = u % 146097;
        proof {
            lemma_fundamental_div_mod(u as int, 146097);
            lemma_mod_division_less_than_divisor(u as int, 146097);
        }
        (q as i128, r as i128)
    } else {
        let u: u128 = (-days) as u128;
        let qm: u128 = u / 146097;
        let rm: u128 = u % 146097;
        proof {
            lemma_fundamental_div_mod(u as int, 146097);
            lemma_mod_division_less_than_divisor(u as int, 146097);
        }
        if rm == 0 {
            (-(qm as i128), 0)
        } else {
            (-(qm as i128) - 1, (146097 - rm) as i128)
        }
    }
}

/// The calendar date of day number `days` (days since 0001-01-01).
fn civil_from_day_number(days: i128) -> (ymd: (i64, u64, u64))
    requires
        -10_000_000_000_000_000_000 <= days <= 10_000_000_000_000_000_000,
    ensures
        valid_date(ymd.0 as int, ymd.1 as int, ymd.2 as int),
        days_from_civil(ymd.0 as int, ymd.1 as int, ymd.2 as int) == days as int,
        -30_000_000_000_000_000 <= ymd.0 <= 30_000_000_000_000_000,
{
    let (era, rem0) = split_era(days);
    let mut year: i128 = 400 * era + 1;
    let mut rem: i128 = rem0;
    proof {
        lemma_days_before_year_era(era as int);
    }
    let mut diy: u64 = days_in_year_exec(year);
    while rem >= diy as i128
        invariant
            days_before_year(year as int) + rem == days as int,
            0 <= rem < 146097,
            diy == days_in_year(year as int),
            400 * era + 1 <= year,
            365 * (year - (400 * era + 1)) <= 146097 - rem,
            -70_000_000_000_000 <= era <= 70_000_000_000_000,
        decreases rem,
    {
        proof {
            lemma_days_before_year_step(year as int);
        }
        rem = rem - diy as i128;
        year = year + 1;
        diy = days_in_year_exec(year);
    }
    let ghost rem_year = rem as int;
    let mut month: u64 = 1;
    let mut dim: u64 = days_in_month_exec(year, 1);
    while rem >= dim as i128
        invariant
            1 <= month <= 12,
            dim == days_in_month(year as int, month as int),
            days_before_month(year as int, month as int) + rem == rem_year,
            0 <= rem,
            rem_year < days_in_year(year as int),
            -100_000_000_000_000_000_000 <= year <= 100_000_000_000_000_000_000,
        decreases rem,
    {
        proof {
            if month == 12 {
                lemma_days_before_month_13(year as int);
                assert(days_before_month(year as int, 13) == days_before_month(year as int, 12)
                    + days_in_month(year as int, 12));
                assert(false);
            }
            assert(days_before_month(year as int, month as int + 1) == days_before_month(
                year as int,
                month as int,
            ) + days_in_month(year as int, month as int));
        }
        rem = rem - dim as i128;
        month = month + 1;
        dim = days_in_month_exec(year, month);
    }
    let day: u64 = (rem + 1) as u64;
    (year as i64, month, day)
}

/// One run of zero characters.
pub open spec fn zeros(k: int) -> Seq<char>
    decreases k,
{
    if k <= 0 {
        Seq::empty()
    } else {
        zeros(k - 1).push('0')
    }
}

/// `s` left-padded with zeros to at least `width` characters.
pub open spec fn zero_pad(s: Seq<char>, width: int) -> Seq<char> {
    zeros(width - s.len()) + s
}

proof fn lemma_dec_digits_len(n: nat)
    ensures
        dec_digits(n).len() >= 1,
        n < 10 ==> dec_digits(n).len() == 1,
        10 <= n < 100 ==> dec_digits(n).len() == 2,
        100 <= n < 1000 ==> dec_digits(n).len() == 3,
        n >= 1000 ==> dec_digits(n).len() >= 4,
    decreases n,
{
    if n >= 10 {
        lemma_div_is_ordered(10, n as int, 10);
        if n >= 100 {
            lemma_div_is_ordered(100, n as int, 10);
        }
        if n >= 1000 {
            lemma_div_is_ordered(1000, n as int, 10);
        }
        if n < 100 {
            lemma_div_is_ordered(n as int, 99, 10);
        }
        if n < 1000 {
            lemma_div_is_ordered(n as int, 999, 10);
        }
        lemma_dec_digits_len(n / 10);
    }
}

/// Appends `n` in decimal, zero-padded to at least `width` digits.
fn push_padded(n: u64, width: u64, out: &mut String)
    requires
        width == 2 || width == 4,
    ensures
        final(out)@ == old(out)@ + zero_pad(dec_digits(n as nat), width as int),
{
    proof {
        lemma_dec_digits_len(n as nat);
        reveal_strlit("0");
        reveal_strlit("00");
        reveal_strlit("000");
        reveal_with_fuel(zeros, 5);
        assert(zeros(1) =~= seq!['0']);
        assert(zeros(2) =~= seq!['0', '0']);
        assert(zeros(3) =~= seq!['0', '0', '0']);
        assert("0"@ =~= zeros(1));
        assert("00"@ =~= zeros(2));
        assert("000"@ =~= zeros(3));
    }
    if width == 2 {
        if n < 10 {
            out.append("0");
        }
    } else {
        if n < 10 {
            out.append("000");
        } else if n < 100 {
            out.append("00");
        } else if n < 1000 {
            out.append("0");
        }
    }
    push_dec_digits(n, out);
    proof {
        assert(out@ =~= old(out)@ + zero_pad(dec_digits(n as nat), width as int));
    }
}

/// The `YYYY-MM-DD` text of a calendar date: the year zero-padded to four
/// digits (with a leading minus sign for years before year 1), month and day
/// zero-padded to two.
pub open spec fn date_text(y: int, m: int, d: int) -> Seq<char> {
    (if y < 0 {
        seq!['-'] + zero_pad(dec_digits((-y) as nat), 4)
    } else {
        zero_pad(dec_digits(y as nat), 4)
    }) + seq!['-'] + zero_pad(dec_digits(m as nat), 2) + seq!['-'] + zero_pad(
        dec_digits(d as nat),
        2,
    )
}

/// The date text of a spreadsheet serial number: the unique calendar date
/// whose day number is the epoch-adjusted serial, rendered as `YYYY-MM-DD`.
pub open spec fn serial_date_text(serial: int) -> Seq<char> {
    let t = civil_of_day(serial + EXCEL_EPOCH_DAYS as int);
    date_text(t.0, t.1, t.2)
}

/// A spreadsheet date/time serial number, rounded to a whole day count.
pub struct ExcelEpoch(pub i64);

impl ExcelEpoch {
    /// Renders the serial as calendar date text.
    pub fn to_date_string(&self) -> (r: String)
        ensures
            r@ == serial_date_text(self.0 as int),
    {
        let days: i128 = self.0 as i128 + EXCEL_EPOCH_DAYS as i128;
        let (year, month, day) = civil_from_day_number(days);
        proof {
            reveal_strlit("-");
        }
        let mut out = String::new();
        if year < 0 {
            out.append("-");
            push_padded((-(year as i128)) as u64, 4, &mut out);
        } else {
            push_padded(year as u64, 4, &mut out);
        }
        out.append("-");
        push_padded(month, 2, &mut out);
        out.append("-");
        push_padded(day, 2, &mut out);
        proof {
            let t = civil_of_day(days as int);
            assert(valid_date(year as int, month as int, day as int) && days_from_civil(
                year as int,
                month as int,
                day as int,
            ) == days as int);
            assert(valid_date(t.0, t.1, t.2) && days_from_civil(t.0, t.1, t.2) == days as int);
            lemma_civil_unique(t.0, t.1, t.2, year as int, month as int, day as int);
            assert(out@ =~= serial_date_text(self.0 as int));
        }
        out
    }
}

} // verus!
