//! Calendar days as plain day numbers.
//!
//! The ledger only orders dates and steps from one day to the next, so a day
//! is held as a single day count; a front end converts to and from a real
//! calendar.

use vstd::prelude::*;

verus! {

/// A calendar day, counted in days.
#[derive(Clone, Copy, PartialEq, Eq, Structural, Debug)]
pub struct Date {
    days: i32,
}

impl Date {
    /// The day count as a mathematical integer.
    pub closed spec fn day_spec(self) -> int {
        self.days as int
    }

    pub fn new(days: i32) -> (d: Date)
        ensures
            d.day_spec() == days,
    {
        Date { days }
    }

    pub fn day(self) -> (n: i32)
        ensures
            n == self.day_spec(),
    {
        self.days
    }

    pub fn le(self, other: Date) -> (b: bool)
        ensures
            b == (self.day_spec() <= other.day_spec()),
    {
        self.days <= other.days
    }

    pub fn lt(self, other: Date) -> (b: bool)
        ensures
            b == (self.day_spec() < other.day_spec()),
    {
        self.days < other.days
    }

    /// The next day.
    pub fn succ(self) -> (d: Date)
        requires
            self.day_spec() < i32::MAX,
        ensures
            d.day_spec() == self.day_spec() + 1,
    {
        Date { days: self.days + 1 }
    }

    /// The day shifted by a signed number of days.
    pub fn shifted(self, diff: i32) -> (d: Date)
        requires
            i32::MIN <= self.day_spec() + diff <= i32::MAX,
        ensures
            d.day_spec() == self.day_spec() + diff,
    {
        Date { days: self.days + diff }
    }
}

} // verus!
