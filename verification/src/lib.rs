//! Calendrical arithmetic over the proleptic Gregorian calendar.
//!
//! A date is held either as calendar fields (year, month, day) or as a
//! linear day count from a fixed epoch (a serial date, or "rata die",
//! with day 0 falling on 0000-03-01).  The two representations convert
//! into each other by a closed-form, division-based algorithm, and the
//! conversions are proved to be mutual inverses over the supported
//! range.  Weekdays derive from the serial form; whole days, months and
//! years can be added to a date, with month arithmetic overflowing an
//! out-of-range day into the following month.

pub mod date;
pub mod laws;
pub mod period;
