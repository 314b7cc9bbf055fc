//! The library's laws: round-trip theorems for the field/serial
//! conversions and the algebra of weekday arithmetic, stated over the
//! same specification functions the executable contracts use.

use vstd::prelude::*;

verus! {

use crate::date::{
    days_in_month,
    in_conversion_range,
    month_offset,
    rata_die,
    valid_ymd,
    weekday_from_ord,
    year_shift,
    days_before_year,
    Weekday,
    MAX_RD,
};
use crate::date::{
    lemma_dby_mono,
    lemma_dby_split,
    lemma_dby_step,
    lemma_leap_link,
    lemma_split_century,
    lemma_split_month,
    lemma_split_year,
    lemma_t_range,
};
use vstd::arithmetic::div_mod::{
    lemma_fundamental_div_mod,
    lemma_fundamental_div_mod_converse_mod,
    lemma_mod_division_less_than_divisor,
};

/// Field -> serial -> field round trip.  `FieldDate::to_serial_date`
/// returns the day count `rata_die` of its date, and
/// `SerialDate::to_field_date` returns a valid date with the day count
/// it was given; this law closes the loop: no two valid field dates
/// share a day count, so converting a valid date to serial and back
/// yields the original fields.
pub proof fn lemma_field_round_trip(y1: int, m1: int, d1: int, y2: int, m2: int, d2: int)
    requires
        valid_ymd(y1, m1, d1),
        valid_ymd(y2, m2, d2),
        rata_die(y1, m1, d1) == rata_die(y2, m2, d2),
    ensures
        y1 == y2,
        m1 == m2,
        d1 == d2,
{
    let ja = year_shift(m1);
    let ya = y1 - ja;
    let ma = m1 + 12 * ja;
    let ta = month_offset(ma) + d1 - 1;
    let jb = year_shift(m2);
    let yb = y2 - jb;
    let mb = m2 + 12 * jb;
    let tb = month_offset(mb) + d2 - 1;
    lemma_t_range(y1, m1, d1);
    lemma_t_range(y2, m2, d2);
    if ya < yb {
        lemma_dby_step(ya);
        lemma_dby_mono(ya + 1, yb);
        assert(false);
    }
    if yb < ya {
        lemma_dby_step(yb);
        lemma_dby_mono(yb + 1, ya);
        assert(false);
    }
    if ma < mb {
        assert(month_offset(mb) >= month_offset(ma + 1));
        assert(false);
    }
    if mb < ma {
        assert(month_offset(ma) >= month_offset(mb + 1));
        assert(false);
    }
}

/// Serial -> field -> serial round trip, at the specification level:
/// every representable day count is the day count of a valid,
/// in-range field date (and by [`lemma_field_round_trip`] of exactly
/// one), so `SerialDate::to_field_date` followed by
/// `FieldDate::to_serial_date` returns the day count it started from.
pub proof fn lemma_serial_round_trip(rd: int)
    requires
        0 <= rd <= MAX_RD,
    ensures
        exists|y: int, m: int, d: int|
            #[trigger] valid_ymd(y, m, d) && in_conversion_range(y, m) && rata_die(y, m, d) == rd,
{
    let c = (4 * rd + 3) / 146097;
    let s = ((4 * rd + 3) % 146097) / 4;
    lemma_split_century(rd, c, s);
    let z = (4 * s + 3) / 1461;
    let t = ((4 * s + 3) % 1461) / 4;
    lemma_split_year(s, z, t);
    let m0 = (2141 * t + 197913) / 65536;
    let d0 = ((2141 * t + 197913) % 65536) / 2141;
    lemma_split_month(t, m0, d0);
    let y0 = 100 * c + z;
    lemma_dby_split(y0, c, z);
    if y0 >= 2939745 {
        lemma_dby_mono(2939745, y0);
        assert(days_before_year(2939745) == 1073719813);
    }
    lemma_leap_link(c, z);
    let jw: int = if m0 >= 13 {
        1
    } else {
        0
    };
    let yw = y0 + jw;
    let mw = m0 - 12 * jw;
    let dw = d0 + 1;
    assert(valid_ymd(yw, mw, dw) && in_conversion_range(yw, mw) && rata_die(yw, mw, dw) == rd);
}

/// Weekday periodicity: moving any weekday seven days forward returns
/// it, in the terms of the `Weekday + Days` specification.
pub proof fn lemma_weekday_period(w: Weekday)
    ensures
        weekday_from_ord((w.ord_spec() + 7) % 7) == w,
{
    lemma_fundamental_div_mod_converse_mod(w.ord_spec() + 7, 7, 1, w.ord_spec());
}

/// Weekday circular distance: the distance `a - b` between two
/// weekdays lies in `0..=6`, and moving `b` forward by it reaches `a`,
/// in the terms of the `Weekday - Weekday` and `Weekday + Days`
/// specifications.
pub proof fn lemma_weekday_distance(a: Weekday, b: Weekday)
    ensures
        0 <= (a.ord_spec() - b.ord_spec()) % 7 <= 6,
        weekday_from_ord((b.ord_spec() + (a.ord_spec() - b.ord_spec()) % 7) % 7) == a,
{
    let diff = (a.ord_spec() - b.ord_spec()) % 7;
    lemma_mod_division_less_than_divisor(a.ord_spec() - b.ord_spec(), 7);
    lemma_fundamental_div_mod(a.ord_spec() - b.ord_spec(), 7);
    lemma_fundamental_div_mod_converse_mod(
        b.ord_spec() + diff,
        7,
        -((a.ord_spec() - b.ord_spec()) / 7),
        a.ord_spec(),
    );
}

/// Months away from February have fixed lengths, whatever the year:
/// April always counts 30 days and January always 31.
pub proof fn lemma_fixed_month_lengths(y: int)
    ensures
        days_in_month(y, 4) == 30,
        days_in_month(y, 1) == 31,
{
}

/// The leap rule never stretches a month beyond the bounds the day
/// type allows: a month's length always lies in `28..=31`.
pub proof fn lemma_month_length_bounds(y: int, m: int)
    requires
        1 <= m <= 12,
    ensures
        28 <= days_in_month(y, m) <= 31,
{
}

} // verus!
