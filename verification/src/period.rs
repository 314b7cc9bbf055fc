//! Period types: typed wrappers over a day, month or year count.
//!
//! A period is a duration in a single unit, not a point in time.  The
//! three wrappers are distinct types, so a day count cannot be mixed up
//! with a month count.  Periods of one unit combine by addition.

use vstd::prelude::*;

verus! {

/// A whole number of days.
#[derive(PartialEq, Eq, Structural, PartialOrd, Ord, Clone, Copy, Debug)]
pub struct Days(pub u32);

/// A whole number of months.
#[derive(PartialEq, Eq, Structural, PartialOrd, Ord, Clone, Copy, Debug)]
pub struct Months(pub u32);

/// A whole number of years.
#[derive(PartialEq, Eq, Structural, PartialOrd, Ord, Clone, Copy, Debug)]
pub struct Years(pub u32);

impl std::ops::Add for Days {
    type Output = Days;

    /// Combines two day counts.
    fn add(self, rhs: Days) -> (r: Days) {
        Days(self.0 + rhs.0)
    }
}

impl vstd::std_specs::ops::AddSpecImpl for Days {
    open spec fn obeys_add_spec() -> bool {
        true
    }

    open spec fn add_req(self, rhs: Days) -> bool {
        self.0 + rhs.0 <= u32::MAX
    }

    open spec fn add_spec(self, rhs: Days) -> Days {
        Days((self.0 + rhs.0) as u32)
    }
}

impl Days {
    /// Adds a day count in place.
    pub fn add_assign(&mut self, rhs: Days)
        requires
            old(self).0 + rhs.0 <= u32::MAX,
        ensures
            final(self).0 == old(self).0 + rhs.0,
    {
        self.0 = self.0 + rhs.0;
    }
}

impl std::ops::Add for Months {
    type Output = Months;

    /// Combines two month counts.
    fn add(self, rhs: Months) -> (r: Months) {
        Months(self.0 + rhs.0)
    }
}

impl vstd::std_specs::ops::AddSpecImpl for Months {
    open spec fn obeys_add_spec() -> bool {
        true
    }

    open spec fn add_req(self, rhs: Months) -> bool {
        self.0 + rhs.0 <= u32::MAX
    }

    open spec fn add_spec(self, rhs: Months) -> Months {
        Months((self.0 + rhs.0) as u32)
    }
}

impl Months {
    /// Adds a month count in place.
    pub fn add_assign(&mut self, rhs: Months)
        requires
            old(self).0 + rhs.0 <= u32::MAX,
        ensures
            final(self).0 == old(self).0 + rhs.0,
    {
        self.0 = self.0 + rhs.0;
    }
}

impl std::ops::Add for Years {
    type Output = Years;

    /// Combines two year counts.
    fn add(self, rhs: Years) -> (r: Years) {
        Years(self.0 + rhs.0)
    }
}

impl vstd::std_specs::ops::AddSpecImpl for Years {
    open spec fn obeys_add_spec() -> bool {
        true
    }

    open spec fn add_req(self, rhs: Years) -> bool {
        self.0 + rhs.0 <= u32::MAX
    }

    open spec fn add_spec(self, rhs: Years) -> Years {
        Years((self.0 + rhs.0) as u32)
    }
}

impl Years {
    /// Adds a year count in place.
    pub fn add_assign(&mut self, rhs: Years)
        requires
            old(self).0 + rhs.0 <= u32::MAX,
        ensures
            final(self).0 == old(self).0 + rhs.0,
    {
        self.0 = self.0 + rhs.0;
    }
}

} // verus!
