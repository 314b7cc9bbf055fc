//! Calendar dates: field form, serial form, weekdays, and the
//! conversions between them.
//!
//! The specification-level model is built from `int` arithmetic:
//! [`is_leap_spec`] states the Gregorian leap-year rule,
//! [`days_in_month`] the month lengths, and [`rata_die`] the day count
//! of a field date, measured from the epoch 0000-03-01 (day 0).  The
//! executable conversions use a closed-form, branch-minimal division
//! algorithm whose constants encode the Gregorian leap structure, and
//! they are proved against this model.

use vstd::prelude::*;

verus! {

use crate::period::{Days, Months};
use vstd::arithmetic::div_mod::{
    lemma_div_is_ordered,
    lemma_div_pos_is_pos,
    lemma_fundamental_div_mod,
    lemma_fundamental_div_mod_converse_div,
    lemma_fundamental_div_mod_converse_mod,
    lemma_mod_division_less_than_divisor,
};

// ---------------------------------------------------------------------
// Specification model
// ---------------------------------------------------------------------

/// The Gregorian leap-year rule: divisible by 4, except that century
/// years must be divisible by 400.
pub open spec fn is_leap_spec(y: int) -> bool {
    (y % 4 == 0 && y % 100 != 0) || y % 400 == 0
}

/// Length of civil month `m` of year `y`, for `1 <= m <= 12`.
pub open spec fn days_in_month(y: int, m: int) -> int {
    if m == 2 {
        if is_leap_spec(y) {
            29
        } else {
            28
        }
    } else if m == 4 || m == 6 || m == 9 || m == 11 {
        30
    } else {
        31
    }
}

/// A field date is a calendar date at all: month in range and day no
/// larger than the month's length.
pub open spec fn valid_ymd(y: int, m: int, d: int) -> bool {
    &&& 1 <= m <= 12
    &&& 1 <= d <= days_in_month(y, m)
}

/// Days contributed by the whole computational years before `y0`,
/// counting from computational year 0 (which begins 0000-03-01).  This
/// is the standard closed form: 365 days a year, plus the 4-, minus the
/// 100-, plus the 400-year leap corrections.
pub open spec fn days_before_year(y0: int) -> int {
    365 * y0 + y0 / 4 - y0 / 100 + y0 / 400
}

/// Days from the start of a computational year (March 1) to the first
/// day of computational month `m0`, for `3 <= m0 <= 14` (March of one
/// civil year through February of the next).
pub open spec fn month_offset(m0: int) -> int {
    if m0 == 3 {
        0
    } else if m0 == 4 {
        31
    } else if m0 == 5 {
        61
    } else if m0 == 6 {
        92
    } else if m0 == 7 {
        122
    } else if m0 == 8 {
        153
    } else if m0 == 9 {
        184
    } else if m0 == 10 {
        214
    } else if m0 == 11 {
        245
    } else if m0 == 12 {
        275
    } else if m0 == 13 {
        306
    } else {
        337
    }
}

/// 1 when civil month `m` belongs to the previous computational year
/// (January and February trail the March-based year), else 0.
pub open spec fn year_shift(m: int) -> int {
    if m <= 2 {
        1
    } else {
        0
    }
}

/// The serial day count of the field date `(y, m, d)`: days elapsed
/// since the epoch 0000-03-01.
pub open spec fn rata_die(y: int, m: int, d: int) -> int {
    let j = year_shift(m);
    days_before_year(y - j) + month_offset(m + 12 * j) + (d - 1)
}

/// Greatest computational year whose day counts stay within `u32`
/// arithmetic in the field-to-serial conversion.
pub const MAX_COMP_YEAR: u32 = 2939744;

/// Greatest serial day count the conversions support: the last day of
/// computational year [`MAX_COMP_YEAR`].
pub const MAX_RD: u32 = 1073719812;

/// The field date lies in the range both conversions support: its
/// computational year fits `[0, MAX_COMP_YEAR]`.
pub open spec fn in_conversion_range(y: int, m: int) -> bool {
    0 <= y - year_shift(m) <= MAX_COMP_YEAR
}

// ---------------------------------------------------------------------
// Month and day-of-month
// ---------------------------------------------------------------------

/// A day of a month, nominally `1..=31`; whether a value is a real day
/// depends on year and month, which only [`FieldDate::new`] checks.
#[derive(PartialEq, Eq, Structural, PartialOrd, Ord, Clone, Copy, Debug)]
pub struct Day(pub u8);

impl Day {
    /// No month has more days than this.
    pub const MAX: u8 = 31;
}

/// A month of the year, constrained to `1..=12` when built through
/// [`Month::new`].
#[derive(PartialEq, Eq, Structural, PartialOrd, Ord, Clone, Copy, Debug)]
pub struct Month(pub u8);

/// The recoverable failure of building a [`Month`] from an integer
/// outside `1..=12`.
#[derive(PartialEq, Eq, Structural, Clone, Copy, Debug)]
pub struct MonthOutofRangeError;

impl Month {
    /// Checked construction of a month from its number.
    pub fn new(value: u8) -> (r: Result<Month, MonthOutofRangeError>)
        ensures
            r is Ok <==> 1 <= value <= 12,
            r is Ok ==> r->Ok_0 == Month(value),
    {
        if 1 <= value && value <= 12 {
            Ok(Month(value))
        } else {
            Err(MonthOutofRangeError)
        }
    }
}

/// Whether year `y` is a leap year, by the mask trick: century years
/// must have their low four bits clear, other years their low two.
pub fn is_leap_year(y: u32) -> (r: bool)
    ensures
        r == is_leap_spec(y as int),
{
    let mask: u32 = if y % 100 == 0 {
        15
    } else {
        3
    };
    proof {
        assert((y % 100u32 == 0 ==> y % 4u32 == 0) && (y % 400u32 == 0 ==> y % 100u32 == 0) && (y
            % 100u32 == 0 ==> ((y & 15u32) == 0 <==> y % 400u32 == 0)) && (y % 100u32 != 0 ==> ((y
            & 3u32) == 0 <==> y % 4u32 == 0))) by (bit_vector);
    }
    (y & mask) == 0
}

/// The last day of month `m` of year `y`.  February consults the leap
/// rule; every other length comes from the closed-form bit identity
/// `(m ^ (m >> 3)) | 30`.
pub fn last_day_of_month(y: u32, m: Month) -> (r: Day)
    requires
        1 <= m.0 <= 12,
    ensures
        r.0 == days_in_month(y as int, m.0 as int),
{
    let m0 = m.0;
    if m0 == 2 {
        if is_leap_year(y) {
            Day(29)
        } else {
            Day(28)
        }
    } else {
        proof {
            assert((m0 == 1 ==> ((m0 ^ (m0 >> 3u8)) | 30u8) == 31) && (m0 == 3 ==> ((m0 ^ (m0
                >> 3u8)) | 30u8) == 31) && (m0 == 4 ==> ((m0 ^ (m0 >> 3u8)) | 30u8) == 30) && (m0
                == 5 ==> ((m0 ^ (m0 >> 3u8)) | 30u8) == 31) && (m0 == 6 ==> ((m0 ^ (m0 >> 3u8))
                | 30u8) == 30) && (m0 == 7 ==> ((m0 ^ (m0 >> 3u8)) | 30u8) == 31) && (m0 == 8 ==> ((
            m0 ^ (m0 >> 3u8)) | 30u8) == 31) && (m0 == 9 ==> ((m0 ^ (m0 >> 3u8)) | 30u8) == 30) && (
            m0 == 10 ==> ((m0 ^ (m0 >> 3u8)) | 30u8) == 31) && (m0 == 11 ==> ((m0 ^ (m0 >> 3u8))
                | 30u8) == 30) && (m0 == 12 ==> ((m0 ^ (m0 >> 3u8)) | 30u8) == 31)) by (bit_vector);
        }
        Day((m0 ^ (m0 >> 3)) | 30)
    }
}

// ---------------------------------------------------------------------
// Serial and field dates
// ---------------------------------------------------------------------

/// A date as a linear day count: `rd` days since the epoch 0000-03-01.
/// The total order on serial dates is chronological order.
#[derive(PartialEq, Eq, Structural, PartialOrd, Ord, Clone, Copy, Debug)]
pub struct SerialDate {
    pub rd: u32,
}

/// A date as calendar fields: year, month, day.
#[derive(PartialEq, Eq, Structural, PartialOrd, Ord, Clone, Copy, Debug)]
pub struct FieldDate {
    pub year: u32,
    pub month: Month,
    pub day: Day,
}

impl FieldDate {
    /// The fields name a real calendar date.
    pub open spec fn valid(self) -> bool {
        valid_ymd(self.year as int, self.month.0 as int, self.day.0 as int)
    }

    /// The date lies in the range the serial conversion supports.
    pub open spec fn in_range(self) -> bool {
        in_conversion_range(self.year as int, self.month.0 as int)
    }

    /// The day count this date stands for.
    pub open spec fn rd_spec(self) -> int {
        rata_die(self.year as int, self.month.0 as int, self.day.0 as int)
    }
}

// ---------------------------------------------------------------------
// Arithmetic facts behind the conversion algorithm
// ---------------------------------------------------------------------

/// How a quotient and remainder move when the dividend grows by one.
pub(crate) proof fn lemma_div_increment(x: int, d: int)
    requires
        0 < d,
    ensures
        x % d == d - 1 ==> (x + 1) / d == x / d + 1 && (x + 1) % d == 0,
        x % d < d - 1 ==> (x + 1) / d == x / d && (x + 1) % d == x % d + 1,
{
    lemma_fundamental_div_mod(x, d);
    lemma_mod_division_less_than_divisor(x, d);
    let q = x / d;
    let r = x % d;
    if r == d - 1 {
        assert(x + 1 == (q + 1) * d + 0) by (nonlinear_arith)
            requires
                x == d * q + r,
                r == d - 1,
        ;
        lemma_fundamental_div_mod_converse_div(x + 1, d, q + 1, 0);
        lemma_fundamental_div_mod_converse_mod(x + 1, d, q + 1, 0);
    } else {
        assert(x + 1 == q * d + (r + 1)) by (nonlinear_arith)
            requires
                x == d * q + r,
        ;
        lemma_fundamental_div_mod_converse_div(x + 1, d, q, r + 1);
        lemma_fundamental_div_mod_converse_mod(x + 1, d, q, r + 1);
    }
}

/// A multiple of 100 is a multiple of 4.
pub(crate) proof fn lemma_mod100_to_mod4(n: int)
    requires
        n % 100 == 0,
    ensures
        n % 4 == 0,
{
    lemma_fundamental_div_mod(n, 100);
    lemma_fundamental_div_mod_converse_mod(n, 4, 25 * (n / 100), 0);
}

/// A multiple of 400 is a multiple of 100 and of 4.
pub(crate) proof fn lemma_mod400_to_mod100(n: int)
    requires
        n % 400 == 0,
    ensures
        n % 100 == 0,
        n % 4 == 0,
{
    lemma_fundamental_div_mod(n, 400);
    lemma_fundamental_div_mod_converse_mod(n, 100, 4 * (n / 400), 0);
    lemma_fundamental_div_mod_converse_mod(n, 4, 100 * (n / 400), 0);
}

/// One computational year adds 365 days, or 366 when the civil year it
/// runs into is leap.
pub(crate) proof fn lemma_dby_step(y: int)
    ensures
        days_before_year(y + 1) == days_before_year(y) + 365 + (if is_leap_spec(y + 1) {
            1int
        } else {
            0int
        }),
{
    lemma_div_increment(y, 4);
    lemma_div_increment(y, 100);
    lemma_div_increment(y, 400);
    lemma_mod_division_less_than_divisor(y, 4);
    lemma_mod_division_less_than_divisor(y, 100);
    lemma_mod_division_less_than_divisor(y, 400);
    if (y + 1) % 400 == 0 {
        lemma_mod400_to_mod100(y + 1);
    } else if (y + 1) % 100 == 0 {
        lemma_mod100_to_mod4(y + 1);
    }
}

/// Day counts of computational years grow by at least 365 a year.
pub(crate) proof fn lemma_dby_mono(a: int, b: int)
    requires
        a <= b,
    ensures
        days_before_year(a) + 365 * (b - a) <= days_before_year(b),
    decreases b - a,
{
    if a < b {
        lemma_dby_mono(a, b - 1);
        lemma_dby_step(b - 1);
    }
}

/// Splits the day count of computational year `100c + z` into its
/// century part and its year-of-century part.
pub(crate) proof fn lemma_dby_split(y0: int, c: int, z: int)
    requires
        y0 == 100 * c + z,
        0 <= z <= 99,
    ensures
        days_before_year(y0) == 36524 * c + c / 4 + 365 * z + z / 4,
{
    lemma_fundamental_div_mod_converse_div(y0, 100, c, z);
    lemma_fundamental_div_mod(z, 4);
    lemma_mod_division_less_than_divisor(z, 4);
    lemma_fundamental_div_mod(c, 4);
    lemma_mod_division_less_than_divisor(c, 4);
    lemma_fundamental_div_mod_converse_div(y0, 4, 25 * c + z / 4, z % 4);
    lemma_fundamental_div_mod_converse_div(y0, 400, c / 4, 100 * (c % 4) + z);
}

/// Which years of century `c` are leap, in terms of the year-of-century
/// `z`: the civil year `100c + z + 1` (the one whose February the
/// computational year `100c + z` ends in) is leap exactly when `z % 4 ==
/// 3`, except that the century's last year also needs `c % 4 == 3`.
pub(crate) proof fn lemma_leap_link(c: int, z: int)
    requires
        0 <= z <= 99,
    ensures
        is_leap_spec(100 * c + z + 1) <==> (z % 4 == 3 && (z < 99 || c % 4 == 3)),
{
    let y = 100 * c + z + 1;
    if z < 99 {
        lemma_fundamental_div_mod(z + 1, 4);
        lemma_mod_division_less_than_divisor(z + 1, 4);
        lemma_fundamental_div_mod_converse_mod(y, 100, c, z + 1);
        lemma_fundamental_div_mod_converse_mod(y, 4, 25 * c + (z + 1) / 4, (z + 1) % 4);
        if y % 400 == 0 {
            lemma_mod400_to_mod100(y);
        }
        lemma_div_increment(z, 4);
        lemma_mod_division_less_than_divisor(z, 4);
    } else {
        lemma_fundamental_div_mod(c + 1, 4);
        lemma_mod_division_less_than_divisor(c + 1, 4);
        lemma_fundamental_div_mod_converse_mod(y, 100, c + 1, 0);
        lemma_fundamental_div_mod_converse_mod(y, 400, (c + 1) / 4, 100 * ((c + 1) % 4));
        lemma_fundamental_div_mod_converse_mod(y, 4, 25 * (c + 1), 0);
        lemma_div_increment(c, 4);
        lemma_mod_division_less_than_divisor(c, 4);
    }
}

/// The affine month formula agrees with the month-offset table.
pub(crate) proof fn lemma_month_table(m0: int)
    requires
        3 <= m0 <= 14,
    ensures
        (979 * m0 - 2919) / 32 == month_offset(m0),
{
    if m0 == 3 {
        assert((979 * m0 - 2919) / 32 == 0);
    } else if m0 == 4 {
        assert((979 * m0 - 2919) / 32 == 31);
    } else if m0 == 5 {
        assert((979 * m0 - 2919) / 32 == 61);
    } else if m0 == 6 {
        assert((979 * m0 - 2919) / 32 == 92);
    } else if m0 == 7 {
        assert((979 * m0 - 2919) / 32 == 122);
    } else if m0 == 8 {
        assert((979 * m0 - 2919) / 32 == 153);
    } else if m0 == 9 {
        assert((979 * m0 - 2919) / 32 == 184);
    } else if m0 == 10 {
        assert((979 * m0 - 2919) / 32 == 214);
    } else if m0 == 11 {
        assert((979 * m0 - 2919) / 32 == 245);
    } else if m0 == 12 {
        assert((979 * m0 - 2919) / 32 == 275);
    } else if m0 == 13 {
        assert((979 * m0 - 2919) / 32 == 306);
    } else {
        assert((979 * m0 - 2919) / 32 == 337);
    }
}

/// The year part of the forward formula agrees with
/// [`days_before_year`], with the helper facts its overflow reasoning
/// needs.
pub(crate) proof fn lemma_year_formula(y0: int)
    requires
        0 <= y0,
    ensures
        (1461 * y0) / 4 == 365 * y0 + y0 / 4,
        (y0 / 100) / 4 == y0 / 400,
        0 <= y0 / 4 <= y0,
        0 <= y0 / 100 <= y0,
        0 <= y0 / 400,
{
    lemma_fundamental_div_mod(y0, 4);
    lemma_mod_division_less_than_divisor(y0, 4);
    lemma_fundamental_div_mod_converse_div(1461 * y0, 4, 365 * y0 + y0 / 4, y0 % 4);
    let c = y0 / 100;
    let z = y0 % 100;
    lemma_fundamental_div_mod(y0, 100);
    lemma_mod_division_less_than_divisor(y0, 100);
    lemma_fundamental_div_mod(c, 4);
    lemma_mod_division_less_than_divisor(c, 4);
    lemma_fundamental_div_mod_converse_div(y0, 400, c / 4, 100 * (c % 4) + z);
    lemma_div_pos_is_pos(y0, 400);
}

/// Where in its computational year a valid date falls: the offset `t`
/// of the day within the year, with its range, reaching day 365 only
/// into a leap February.
pub(crate) proof fn lemma_t_range(y: int, m: int, d: int)
    requires
        valid_ymd(y, m, d),
    ensures
        ({
            let j = year_shift(m);
            let m0 = m + 12 * j;
            let t = month_offset(m0) + d - 1;
            &&& 0 <= t
            &&& t <= 364 + (if is_leap_spec(y - j + 1) {
                1int
            } else {
                0int
            })
            &&& d - 1 < (if m0 == 14 {
                29int
            } else {
                month_offset(m0 + 1) - month_offset(m0)
            })
            &&& (m0 >= 13 <==> t > 305)
        }),
{
}

/// Bounds on the day count of a valid date in conversion range.
pub(crate) proof fn lemma_rd_range(y: int, m: int, d: int)
    requires
        valid_ymd(y, m, d),
        in_conversion_range(y, m),
    ensures
        0 <= rata_die(y, m, d) <= MAX_RD,
{
    let j = year_shift(m);
    let y0 = y - j;
    lemma_t_range(y, m, d);
    lemma_dby_mono(0, y0);
    assert(days_before_year(2939744) == 1073719448);
    assert(!is_leap_spec(2939745));
    if y0 < 2939744 {
        lemma_dby_mono(y0, 2939744);
    }
}

/// Recovers the century `c` and the day-within-century `s` of a day
/// count from the first division step of the inverse algorithm.
pub(crate) proof fn lemma_split_century(rd: int, c: int, s: int)
    requires
        0 <= rd,
        c == (4 * rd + 3) / 146097,
        s == ((4 * rd + 3) % 146097) / 4,
    ensures
        0 <= c,
        0 <= s <= 36523 + (if c % 4 == 3 {
            1int
        } else {
            0int
        }),
        rd == 36524 * c + c / 4 + s,
{
    let n1 = 4 * rd + 3;
    lemma_div_pos_is_pos(n1, 146097);
    lemma_fundamental_div_mod(n1, 146097);
    lemma_mod_division_less_than_divisor(n1, 146097);
    let rr = n1 % 146097;
    lemma_fundamental_div_mod(c, 4);
    lemma_mod_division_less_than_divisor(c, 4);
    lemma_fundamental_div_mod_converse_div(rr, 4, rd - 36524 * c - c / 4, 3 - c % 4);
}

/// Recovers the year-of-century `z` and the day-of-year `t` of a
/// day-within-century from the second division step, in its plain
/// division form.
pub(crate) proof fn lemma_split_year(s: int, z: int, t: int)
    requires
        0 <= s <= 36524,
        z == (4 * s + 3) / 1461,
        t == ((4 * s + 3) % 1461) / 4,
    ensures
        0 <= z <= 99,
        0 <= t <= 364 + (if z % 4 == 3 {
            1int
        } else {
            0int
        }),
        s == 365 * z + z / 4 + t,
        (z == 99 && t == 365) ==> s == 36524,
{
    let n2 = 4 * s + 3;
    lemma_div_pos_is_pos(n2, 1461);
    lemma_fundamental_div_mod(n2, 1461);
    lemma_mod_division_less_than_divisor(n2, 1461);
    lemma_div_is_ordered(n2, 146099, 1461);
    let w = n2 % 1461;
    lemma_fundamental_div_mod(z, 4);
    lemma_mod_division_less_than_divisor(z, 4);
    lemma_fundamental_div_mod_converse_div(w, 4, s - 365 * z - z / 4, 3 - z % 4);
}

/// The fixed-point multiplication of the second inverse step computes
/// the same quotient and remainder as the plain divisions by 1461.
pub(crate) proof fn lemma_year_trick(s: int, z: int, t: int)
    requires
        0 <= s <= 36524,
        z == (4 * s + 3) / 1461,
        t == ((4 * s + 3) % 1461) / 4,
    ensures
        (2939745 * (4 * s + 3)) / 4294967296 == z,
        (((2939745 * (4 * s + 3)) % 4294967296) / 2939745) / 4 == t,
{
    let n2 = 4 * s + 3;
    lemma_div_pos_is_pos(n2, 1461);
    lemma_fundamental_div_mod(n2, 1461);
    lemma_mod_division_less_than_divisor(n2, 1461);
    lemma_div_is_ordered(n2, 146099, 1461);
    let w = n2 % 1461;
    let u2 = 2939745 * n2;
    assert(u2 == 2939745 * (1461 * z + w));
    assert(2939745 * (1461 * z + w) == 4294967445 * z + 2939745 * w) by (nonlinear_arith);
    lemma_fundamental_div_mod_converse_div(u2, 4294967296, z, 149 * z + 2939745 * w);
    lemma_fundamental_div_mod_converse_mod(u2, 4294967296, z, 149 * z + 2939745 * w);
    lemma_fundamental_div_mod_converse_div(149 * z + 2939745 * w, 2939745, w, 149 * z);
    lemma_fundamental_div_mod_converse_div(w, 4, t, w % 4);
    lemma_fundamental_div_mod(w, 4);
    lemma_mod_division_less_than_divisor(w, 4);
}

/// Recovers the computational month `m0` and the day-of-month `d0`
/// from the day-of-year `t` by the third division step.
pub(crate) proof fn lemma_split_month(t: int, m0: int, d0: int)
    requires
        0 <= t <= 365,
        m0 == (2141 * t + 197913) / 65536,
        d0 == ((2141 * t + 197913) % 65536) / 2141,
    ensures
        3 <= m0 <= 14,
        0 <= d0,
        t == month_offset(m0) + d0,
        d0 + 1 <= (if m0 == 14 {
            29int
        } else {
            month_offset(m0 + 1) - month_offset(m0)
        }),
        m0 >= 13 <==> t > 305,
{
    let n3 = 2141 * t + 197913;
    if t <= 30 {
        lemma_fundamental_div_mod_converse_div(n3, 65536, 3, 2141 * t + 1305);
        lemma_fundamental_div_mod_converse_mod(n3, 65536, 3, 2141 * t + 1305);
        lemma_fundamental_div_mod_converse_div(2141 * t + 1305, 2141, t, 1305);
    } else if t <= 60 {
        lemma_fundamental_div_mod_converse_div(n3, 65536, 4, 2141 * (t - 31) + 2140);
        lemma_fundamental_div_mod_converse_mod(n3, 65536, 4, 2141 * (t - 31) + 2140);
        lemma_fundamental_div_mod_converse_div(2141 * (t - 31) + 2140, 2141, t - 31, 2140);
    } else if t <= 91 {
        lemma_fundamental_div_mod_converse_div(n3, 65536, 5, 2141 * (t - 61) + 834);
        lemma_fundamental_div_mod_converse_mod(n3, 65536, 5, 2141 * (t - 61) + 834);
        lemma_fundamental_div_mod_converse_div(2141 * (t - 61) + 834, 2141, t - 61, 834);
    } else if t <= 121 {
        lemma_fundamental_div_mod_converse_div(n3, 65536, 6, 2141 * (t - 92) + 1669);
        lemma_fundamental_div_mod_converse_mod(n3, 65536, 6, 2141 * (t - 92) + 1669);
        lemma_fundamental_div_mod_converse_div(2141 * (t - 92) + 1669, 2141, t - 92, 1669);
    } else if t <= 152 {
        lemma_fundamental_div_mod_converse_div(n3, 65536, 7, 2141 * (t - 122) + 363);
        lemma_fundamental_div_mod_converse_mod(n3, 65536, 7, 2141 * (t - 122) + 363);
        lemma_fundamental_div_mod_converse_div(2141 * (t - 122) + 363, 2141, t - 122, 363);
    } else if t <= 183 {
        lemma_fundamental_div_mod_converse_div(n3, 65536, 8, 2141 * (t - 153) + 1198);
        lemma_fundamental_div_mod_converse_mod(n3, 65536, 8, 2141 * (t - 153) + 1198);
        lemma_fundamental_div_mod_converse_div(2141 * (t - 153) + 1198, 2141, t - 153, 1198);
    } else if t <= 213 {
        lemma_fundamental_div_mod_converse_div(n3, 65536, 9, 2141 * (t - 184) + 2033);
        lemma_fundamental_div_mod_converse_mod(n3, 65536, 9, 2141 * (t - 184) + 2033);
        lemma_fundamental_div_mod_converse_div(2141 * (t - 184) + 2033, 2141, t - 184, 2033);
    } else if t <= 244 {
        lemma_fundamental_div_mod_converse_div(n3, 65536, 10, 2141 * (t - 214) + 727);
        lemma_fundamental_div_mod_converse_mod(n3, 65536, 10, 2141 * (t - 214) + 727);
        lemma_fundamental_div_mod_converse_div(2141 * (t - 214) + 727, 2141, t - 214, 727);
    } else if t <= 274 {
        lemma_fundamental_div_mod_converse_div(n3, 65536, 11, 2141 * (t - 245) + 1562);
        lemma_fundamental_div_mod_converse_mod(n3, 65536, 11, 2141 * (t - 245) + 1562);
        lemma_fundamental_div_mod_converse_div(2141 * (t - 245) + 1562, 2141, t - 245, 1562);
    } else if t <= 305 {
        lemma_fundamental_div_mod_converse_div(n3, 65536, 12, 2141 * (t - 275) + 256);
        lemma_fundamental_div_mod_converse_mod(n3, 65536, 12, 2141 * (t - 275) + 256);
        lemma_fundamental_div_mod_converse_div(2141 * (t - 275) + 256, 2141, t - 275, 256);
    } else if t <= 336 {
        lemma_fundamental_div_mod_converse_div(n3, 65536, 13, 2141 * (t - 306) + 1091);
        lemma_fundamental_div_mod_converse_mod(n3, 65536, 13, 2141 * (t - 306) + 1091);
        lemma_fundamental_div_mod_converse_div(2141 * (t - 306) + 1091, 2141, t - 306, 1091);
    } else {
        lemma_fundamental_div_mod_converse_div(n3, 65536, 14, 2141 * (t - 337) + 1926);
        lemma_fundamental_div_mod_converse_mod(n3, 65536, 14, 2141 * (t - 337) + 1926);
        lemma_fundamental_div_mod_converse_div(2141 * (t - 337) + 1926, 2141, t - 337, 1926);
    }
}

// ---------------------------------------------------------------------
// Field -> serial conversion
// ---------------------------------------------------------------------

impl SerialDate {
    /// Converts a field date to its day count by the closed-form
    /// algorithm: a year shift that starts the computational year in
    /// March, the cumulative-day formulas for years and months, and the
    /// day within the month.
    pub fn from(date: FieldDate) -> (r: SerialDate)
        requires
            date.valid(),
            date.in_range(),
        ensures
            r.rd == date.rd_spec(),
    {
        let y1 = date.year;
        let m1 = date.month.0;
        let d1 = date.day.0;

        let j: u32 = match m1 {
            1 | 2 => 1,
            _ => 0,
        };

        let y0 = y1 - j;
        let m0 = m1 as u32 + 12 * j;
        let d0 = (d1 - 1) as u32;

        proof {
            lemma_year_formula(y0 as int);
            lemma_month_table(m0 as int);
            lemma_rd_range(y1 as int, m1 as int, d1 as int);
        }

        let q1 = y0 / 100;
        let yc = 1461 * y0 / 4 - q1 + q1 / 4;
        let mc = (979 * m0 - 2919) / 32;
        let dc = d0;

        let r1 = yc + mc + dc;

        SerialDate { rd: r1 }
    }
}

// ---------------------------------------------------------------------
// Serial -> field conversion
// ---------------------------------------------------------------------

impl FieldDate {
    /// Converts a day count back to calendar fields by the inverse
    /// algorithm: three division steps peel off the century, the year
    /// within it and the month, the middle one through a 64-bit
    /// fixed-point multiplication.  The result is the one valid date
    /// whose day count is `date.rd`.
    pub fn from(date: SerialDate) -> (r: FieldDate)
        requires
            date.rd <= MAX_RD,
        ensures
            r.valid(),
            r.in_range(),
            r.rd_spec() == date.rd,
    {
        let rd = date.rd;
        let n1 = 4 * rd + 3;
        let q1 = n1 / 146097;
        let r1 = n1 % 146097 / 4;
        proof {
            lemma_split_century(rd as int, q1 as int, r1 as int);
        }

        let p32: u64 = 1u64 << 32;
        proof {
            assert((1u64 << 32u64) == 4294967296u64) by (bit_vector);
        }
        let n2 = 4 * r1 + 3;
        let u2 = 2939745u64 * n2 as u64;
        let q2 = (u2 / p32) as u32;
        let r2 = (u2 % p32) as u32 / 2939745 / 4;
        proof {
            let s = r1 as int;
            let z = (4 * s + 3) / 1461;
            let t = ((4 * s + 3) % 1461) / 4;
            lemma_split_year(s, z, t);
            lemma_year_trick(s, z, t);
            assert(u2 == 2939745 * (4 * s + 3));
            assert(q2 == z);
            assert(r2 == t);
        }

        let p16: u32 = 1u32 << 16;
        proof {
            assert((1u32 << 16u32) == 65536u32) by (bit_vector);
        }
        let n3 = 2141 * r2 + 197913;
        let q3 = n3 / p16;
        let r3 = n3 % p16 / 2141;
        proof {
            lemma_split_month(r2 as int, q3 as int, r3 as int);
        }

        let y0 = 100 * q1 + q2;
        let m0 = q3;
        let d0 = r3;

        let j: u32 = match r2 {
            0..=305 => 0,
            _ => 1,
        };

        proof {
            lemma_dby_split(y0 as int, q1 as int, q2 as int);
            if y0 as int >= 2939745 {
                lemma_dby_mono(2939745, y0 as int);
                assert(days_before_year(2939745) == 1073719813);
            }
            lemma_leap_link(q1 as int, q2 as int);
        }

        let y1 = y0 + j;
        let m1 = m0 - 12 * j;
        let d1 = d0 + 1;

        FieldDate { year: y1, month: Month(m1 as u8), day: Day(d1 as u8) }
    }

    /// Converts this date to its serial day count.
    pub fn to_serial_date(&self) -> (r: SerialDate)
        requires
            self.valid(),
            self.in_range(),
        ensures
            r.rd == self.rd_spec(),
    {
        SerialDate::from(*self)
    }
}

impl SerialDate {
    /// Converts this day count to calendar fields.
    pub fn to_field_date(self) -> (r: FieldDate)
        requires
            self.rd <= MAX_RD,
        ensures
            r.valid(),
            r.in_range(),
            r.rd_spec() == self.rd,
    {
        FieldDate::from(self)
    }
}

// ---------------------------------------------------------------------
// Weekdays
// ---------------------------------------------------------------------

/// A day of the week, in the fixed ordering Sunday = 0 through
/// Saturday = 6.
#[derive(PartialEq, Eq, Structural, PartialOrd, Ord, Clone, Copy, Debug)]
pub enum Weekday {
    Sunday,
    Monday,
    Tuesday,
    Wednesday,
    Thursday,
    Friday,
    Saturday,
}

/// The weekday ordinal of day count `rd`: the epoch 0000-03-01 was a
/// Wednesday, so the day count is shifted by 3 before reducing mod 7.
pub open spec fn weekday_of_rd(rd: int) -> int {
    (rd + 3) % 7
}

/// The weekday whose ordinal is `n`, for `0 <= n <= 6`.
pub open spec fn weekday_from_ord(n: int) -> Weekday {
    if n == 0 {
        Weekday::Sunday
    } else if n == 1 {
        Weekday::Monday
    } else if n == 2 {
        Weekday::Tuesday
    } else if n == 3 {
        Weekday::Wednesday
    } else if n == 4 {
        Weekday::Thursday
    } else if n == 5 {
        Weekday::Friday
    } else {
        Weekday::Saturday
    }
}

impl Weekday {
    /// The greatest weekday ordinal.
    pub const MAX: u32 = 6;

    /// The ordinal of this weekday.
    pub open spec fn ord_spec(self) -> int {
        match self {
            Weekday::Sunday => 0,
            Weekday::Monday => 1,
            Weekday::Tuesday => 2,
            Weekday::Wednesday => 3,
            Weekday::Thursday => 4,
            Weekday::Friday => 5,
            Weekday::Saturday => 6,
        }
    }

    /// The ordinal of this weekday, Sunday = 0 through Saturday = 6.
    pub fn ordinal(self) -> (n: u32)
        ensures
            n == self.ord_spec(),
    {
        match self {
            Weekday::Sunday => 0,
            Weekday::Monday => 1,
            Weekday::Tuesday => 2,
            Weekday::Wednesday => 3,
            Weekday::Thursday => 4,
            Weekday::Friday => 5,
            Weekday::Saturday => 6,
        }
    }

    /// The weekday of ordinal `n`.  An ordinal outside `0..=6` is a
    /// caller contract violation: internal call sites reduce mod 7
    /// first, so the bound is required rather than checked.
    pub fn from(n: u32) -> (w: Weekday)
        requires
            n <= 6,
        ensures
            w == weekday_from_ord(n as int),
    {
        match n {
            0 => Weekday::Sunday,
            1 => Weekday::Monday,
            2 => Weekday::Tuesday,
            3 => Weekday::Wednesday,
            4 => Weekday::Thursday,
            5 => Weekday::Friday,
            _ => Weekday::Saturday,
        }
    }
}

impl SerialDate {
    /// The weekday this day count falls on.
    pub fn to_weekday(self) -> (w: Weekday)
        requires
            self.rd + 3 <= u32::MAX,
        ensures
            w == weekday_from_ord(weekday_of_rd(self.rd as int)),
    {
        Weekday::from((self.rd + 3) % 7)
    }
}

impl FieldDate {
    /// The weekday this date falls on.
    pub fn to_weekday(self) -> (w: Weekday)
        requires
            self.valid(),
            self.in_range(),
        ensures
            w == weekday_from_ord(weekday_of_rd(self.rd_spec())),
    {
        proof {
            lemma_rd_range(self.year as int, self.month.0 as int, self.day.0 as int);
        }
        self.to_serial_date().to_weekday()
    }
}

// ---------------------------------------------------------------------
// Weekday arithmetic
// ---------------------------------------------------------------------

impl std::ops::Sub for Weekday {
    type Output = Days;

    /// Circular forward distance between weekdays: how many days
    /// forward from `rhs` reach `self`.  Always in `0..=6`.
    fn sub(self, rhs: Weekday) -> (r: Days) {
        let w0 = self.ordinal();
        let w1 = rhs.ordinal();
        let days = if w0 >= w1 {
            w0 - w1
        } else {
            w0 + 7 - w1
        };
        proof {
            if w0 >= w1 {
                lemma_fundamental_div_mod_converse_mod(w0 - w1, 7, 0, w0 - w1);
            } else {
                lemma_fundamental_div_mod_converse_mod(w0 - w1, 7, -1, w0 + 7 - w1);
            }
        }
        Days(days)
    }
}

impl vstd::std_specs::ops::SubSpecImpl for Weekday {
    open spec fn obeys_sub_spec() -> bool {
        true
    }

    open spec fn sub_req(self, rhs: Weekday) -> bool {
        true
    }

    open spec fn sub_spec(self, rhs: Weekday) -> Days {
        Days(((self.ord_spec() - rhs.ord_spec()) % 7) as u32)
    }
}

impl std::ops::Sub<Days> for Weekday {
    type Output = Weekday;

    /// Moves this weekday back a number of days, wrapping around the
    /// week.
    fn sub(self, rhs: Days) -> (r: Weekday) {
        let k = rhs.0 % 7;
        let o = self.ordinal();
        let n = if o >= k {
            o - k
        } else {
            o + 7 - k
        };
        proof {
            lemma_fundamental_div_mod(rhs.0 as int, 7);
            lemma_mod_division_less_than_divisor(rhs.0 as int, 7);
            if o >= k {
                lemma_fundamental_div_mod_converse_mod(
                    self.ord_spec() - rhs.0,
                    7,
                    -((rhs.0 as int) / 7),
                    n as int,
                );
            } else {
                lemma_fundamental_div_mod_converse_mod(
                    self.ord_spec() - rhs.0,
                    7,
                    -((rhs.0 as int) / 7) - 1,
                    n as int,
                );
            }
        }
        Weekday::from(n)
    }
}

impl vstd::std_specs::ops::SubSpecImpl<Days> for Weekday {
    open spec fn obeys_sub_spec() -> bool {
        true
    }

    open spec fn sub_req(self, rhs: Days) -> bool {
        true
    }

    open spec fn sub_spec(self, rhs: Days) -> Weekday {
        weekday_from_ord((self.ord_spec() - rhs.0) % 7)
    }
}

impl std::ops::Add<Days> for Weekday {
    type Output = Weekday;

    /// Moves this weekday forward a number of days, wrapping around
    /// the week.
    fn add(self, rhs: Days) -> (r: Weekday) {
        Weekday::from((self.ordinal() + rhs.0) % 7)
    }
}

impl vstd::std_specs::ops::AddSpecImpl<Days> for Weekday {
    open spec fn obeys_add_spec() -> bool {
        true
    }

    open spec fn add_req(self, rhs: Days) -> bool {
        self.ord_spec() + rhs.0 <= u32::MAX
    }

    open spec fn add_spec(self, rhs: Days) -> Weekday {
        weekday_from_ord((self.ord_spec() + rhs.0) % 7)
    }
}

// ---------------------------------------------------------------------
// Day arithmetic on dates
// ---------------------------------------------------------------------

impl std::ops::Add<Days> for SerialDate {
    type Output = SerialDate;

    /// Moves this day count forward.
    fn add(self, rhs: Days) -> (r: SerialDate) {
        SerialDate { rd: self.rd + rhs.0 }
    }
}

impl vstd::std_specs::ops::AddSpecImpl<Days> for SerialDate {
    open spec fn obeys_add_spec() -> bool {
        true
    }

    open spec fn add_req(self, rhs: Days) -> bool {
        self.rd + rhs.0 <= u32::MAX
    }

    open spec fn add_spec(self, rhs: Days) -> SerialDate {
        SerialDate { rd: (self.rd + rhs.0) as u32 }
    }
}

impl std::ops::Sub<Days> for SerialDate {
    type Output = SerialDate;

    /// Moves this day count back.
    fn sub(self, rhs: Days) -> (r: SerialDate) {
        SerialDate { rd: self.rd - rhs.0 }
    }
}

impl vstd::std_specs::ops::SubSpecImpl<Days> for SerialDate {
    open spec fn obeys_sub_spec() -> bool {
        true
    }

    open spec fn sub_req(self, rhs: Days) -> bool {
        rhs.0 <= self.rd
    }

    open spec fn sub_spec(self, rhs: Days) -> SerialDate {
        SerialDate { rd: (self.rd - rhs.0) as u32 }
    }
}

impl SerialDate {
    /// Moves this day count forward in place.
    pub fn add_assign(&mut self, rhs: Days)
        requires
            old(self).rd + rhs.0 <= u32::MAX,
        ensures
            final(self).rd == old(self).rd + rhs.0,
    {
        *self = *self + rhs;
    }

    /// Moves this day count back in place.
    pub fn sub_assign(&mut self, rhs: Days)
        requires
            rhs.0 <= old(self).rd,
        ensures
            final(self).rd == old(self).rd - rhs.0,
    {
        *self = *self - rhs;
    }
}

impl FieldDate {
    /// Moves this date forward a whole number of days.
    pub fn add(self, rhs: Days) -> (r: FieldDate)
        requires
            self.valid(),
            self.in_range(),
            self.rd_spec() + rhs.0 <= MAX_RD,
        ensures
            r.valid(),
            r.in_range(),
            r.rd_spec() == self.rd_spec() + rhs.0,
    {
        let s = self.to_serial_date();
        (s + rhs).to_field_date()
    }

    /// Moves this date back a whole number of days.
    pub fn sub(self, rhs: Days) -> (r: FieldDate)
        requires
            self.valid(),
            self.in_range(),
            rhs.0 <= self.rd_spec(),
        ensures
            r.valid(),
            r.in_range(),
            r.rd_spec() == self.rd_spec() - rhs.0,
    {
        proof {
            lemma_rd_range(self.year as int, self.month.0 as int, self.day.0 as int);
        }
        let s = self.to_serial_date();
        (s - rhs).to_field_date()
    }

    /// Moves this date forward a whole number of days, in place.
    pub fn add_assign(&mut self, rhs: Days)
        requires
            old(self).valid(),
            old(self).in_range(),
            old(self).rd_spec() + rhs.0 <= MAX_RD,
        ensures
            final(self).valid(),
            final(self).in_range(),
            final(self).rd_spec() == old(self).rd_spec() + rhs.0,
    {
        *self = self.add(rhs);
    }

    /// Moves this date back a whole number of days, in place.
    pub fn sub_assign(&mut self, rhs: Days)
        requires
            old(self).valid(),
            old(self).in_range(),
            rhs.0 <= old(self).rd_spec(),
        ensures
            final(self).valid(),
            final(self).in_range(),
            final(self).rd_spec() == old(self).rd_spec() - rhs.0,
    {
        *self = self.sub(rhs);
    }
}

// ---------------------------------------------------------------------
// Validated construction
// ---------------------------------------------------------------------

/// Why building a [`FieldDate`] failed.  A month outside `1..=12` is
/// the expected, recoverable validation failure; a day beyond its
/// month's last day is a caller contract violation.
#[derive(PartialEq, Eq, Structural, Clone, Copy, Debug)]
pub enum FieldDateError {
    MonthOutOfRange,
    DayOutOfRange,
}

impl FieldDate {
    /// Checked construction of a field date: the month must be in
    /// `1..=12` and the day must not pass the month's last day.
    pub fn new(y: u32, m: u8, d: u8) -> (r: Result<FieldDate, FieldDateError>)
        ensures
            valid_ymd(y as int, m as int, d as int) ==> r == Ok::<FieldDate, FieldDateError>(
                FieldDate { year: y, month: Month(m), day: Day(d) },
            ),
            !(1 <= m <= 12) ==> r == Err::<FieldDate, FieldDateError>(
                FieldDateError::MonthOutOfRange,
            ),
            (1 <= m <= 12 && !valid_ymd(y as int, m as int, d as int)) ==> r == Err::<
                FieldDate,
                FieldDateError,
            >(FieldDateError::DayOutOfRange),
    {
        let m0 = match Month::new(m) {
            Ok(month) => month,
            Err(_) => {
                return Err(FieldDateError::MonthOutOfRange);
            },
        };
        let ldm = last_day_of_month(y, m0);
        if d == 0 || d > ldm.0 {
            return Err(FieldDateError::DayOutOfRange);
        }
        Ok(FieldDate { year: y, month: m0, day: Day(d) })
    }
}

// ---------------------------------------------------------------------
// Month arithmetic
// ---------------------------------------------------------------------

/// The date reached from month index `idx` (counted in whole months
/// from month 1 of year 0) and day `d`: a day past the target month's
/// end overflows into the following month, reduced by the target
/// month's length; any other day is kept.
pub open spec fn month_roll(idx: int, d: int) -> (int, int, int) {
    let ty = idx / 12;
    let tm = idx % 12 + 1;
    if d <= days_in_month(ty, tm) {
        (ty, tm, d)
    } else {
        (ty, tm + 1, d - days_in_month(ty, tm))
    }
}

/// The date `n` months after `(y, m, d)`.
pub open spec fn add_months_spec(y: int, m: int, d: int, n: int) -> (int, int, int) {
    month_roll(12 * y + m - 1 + n, d)
}

/// The date `n` months before `(y, m, d)`.
pub open spec fn sub_months_spec(y: int, m: int, d: int, n: int) -> (int, int, int) {
    month_roll(12 * y + m - 1 - n, d)
}

impl FieldDate {
    /// Lands on month index `idx` with day `d`, overflowing a too-large
    /// day into the following month.
    fn roll(idx: u32, d: u8) -> (r: FieldDate)
        requires
            1 <= d <= 31,
        ensures
            r.valid(),
            (r.year as int, r.month.0 as int, r.day.0 as int) == month_roll(idx as int, d as int),
    {
        let ty = idx / 12;
        let tm = (idx % 12 + 1) as u8;
        let eom = last_day_of_month(ty, Month(tm));
        if d > eom.0 {
            FieldDate { year: ty, month: Month(tm + 1), day: Day(d - eom.0) }
        } else {
            FieldDate { year: ty, month: Month(tm), day: Day(d) }
        }
    }

    /// Adds a whole number of months: the target month is the date's
    /// month index moved forward by `rhs`, and a day past that month's
    /// end overflows into the following month.
    pub fn wrapping_add(self, rhs: Months) -> (r: FieldDate)
        requires
            self.valid(),
            12 * self.year + self.month.0 - 1 + rhs.0 <= u32::MAX,
        ensures
            r.valid(),
            (r.year as int, r.month.0 as int, r.day.0 as int) == add_months_spec(
                self.year as int,
                self.month.0 as int,
                self.day.0 as int,
                rhs.0 as int,
            ),
    {
        let idx = 12 * self.year + (self.month.0 as u32 - 1) + rhs.0;
        FieldDate::roll(idx, self.day.0)
    }

    /// Subtracts a whole number of months, with the same overflow rule
    /// for the day as [`FieldDate::wrapping_add`].
    pub fn wrapping_sub(self, rhs: Months) -> (r: FieldDate)
        requires
            self.valid(),
            12 * self.year + self.month.0 - 1 <= u32::MAX,
            rhs.0 <= 12 * self.year + self.month.0 - 1,
        ensures
            r.valid(),
            (r.year as int, r.month.0 as int, r.day.0 as int) == sub_months_spec(
                self.year as int,
                self.month.0 as int,
                self.day.0 as int,
                rhs.0 as int,
            ),
    {
        let idx = 12 * self.year + (self.month.0 as u32 - 1) - rhs.0;
        FieldDate::roll(idx, self.day.0)
    }
}

// ---------------------------------------------------------------------
// The calendar
// ---------------------------------------------------------------------

/// A calendar: an epoch and a pair of mutually inverse conversions
/// between field dates and day counts.
pub trait Calendar {
    /// The calendar's epoch: the field date of day count 0.
    fn epoch() -> (r: FieldDate)
        ensures
            r.valid(),
            r.in_range(),
            r.rd_spec() == 0,
    ;

    /// Converts a field date to its day count.
    fn to_serial_date(u1: &FieldDate) -> (r: SerialDate)
        requires
            u1.valid(),
            u1.in_range(),
        ensures
            r.rd == u1.rd_spec(),
    ;

    /// Converts a day count to its field date.
    fn to_field_date(r0: SerialDate) -> (r: FieldDate)
        requires
            r0.rd <= MAX_RD,
        ensures
            r.valid(),
            r.in_range(),
            r.rd_spec() == r0.rd,
    ;
}

/// The proleptic Gregorian calendar over unsigned fields.
pub struct UGregorian {}

impl Calendar for UGregorian {
    fn epoch() -> (r: FieldDate) {
        FieldDate { year: 0, month: Month(3), day: Day(1) }
    }

    fn to_serial_date(u1: &FieldDate) -> (r: SerialDate) {
        u1.to_serial_date()
    }

    fn to_field_date(r0: SerialDate) -> (r: FieldDate) {
        r0.to_field_date()
    }
}

} // verus!
