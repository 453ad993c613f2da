use vstd::prelude::*;

verus! {

/// Identifier of an insured (an asset owner seeking cover).
#[derive(Debug, Clone, Copy, PartialEq, Eq, Structural, PartialOrd, Ord, Hash)]
pub struct InsuredId(pub u64);

/// Identifier of one coverage submission routed by the broker.
#[derive(Debug, Clone, Copy, PartialEq, Eq, Structural, PartialOrd, Ord, Hash)]
pub struct SubmissionId(pub u64);

/// Identifier of an insurer.
#[derive(Debug, Clone, Copy, PartialEq, Eq, Structural, PartialOrd, Ord, Hash)]
pub struct InsurerId(pub u64);

/// Identifier of a bound policy.
#[derive(Debug, Clone, Copy, PartialEq, Eq, Structural, PartialOrd, Ord, Hash)]
pub struct PolicyId(pub u64);

/// A simulation year, counted from 1.
#[derive(Debug, Clone, Copy, PartialEq, Eq, Structural, PartialOrd, Ord, Hash)]
pub struct Year(pub u32);

/// Simulation time in days (1 unit = 1 simulated day).
/// Uses the insurance convention of 360 days per year (12 × 30-day months).
/// Time jumps directly from one event to the next; there is no clock
/// ticking through the gaps.
#[derive(Debug, Clone, Copy, PartialEq, Eq, Structural, PartialOrd, Ord, Hash)]
pub struct Day(pub u64);

/// Number of days in a simulated year.
pub const DAYS_PER_YEAR: u64 = 360;

/// The 1-indexed year that day `d` falls in.
pub open spec fn year_of_day(d: u64) -> int {
    (d as int) / (DAYS_PER_YEAR as int) + 1
}

impl Day {
    /// First day of `year` (years are 1-indexed).
    pub fn year_start(year: Year) -> (d: Day)
        requires
            year.0 >= 1,
        ensures
            d.0 == (year.0 - 1) * DAYS_PER_YEAR,
            year_of_day(d.0) == year.0,
    {
        Day((year.0 as u64 - 1) * DAYS_PER_YEAR)
    }

    /// Last day of `year` (years are 1-indexed).
    pub fn year_end(year: Year) -> (d: Day)
        requires
            year.0 >= 1,
        ensures
            d.0 == year.0 * DAYS_PER_YEAR - 1,
            year_of_day(d.0) == year.0,
    {
        Day(year.0 as u64 * DAYS_PER_YEAR - 1)
    }

    /// The day `days` after this one.
    pub fn offset(self, days: u64) -> (d: Day)
        requires
            self.0 + days <= u64::MAX,
        ensures
            d.0 == self.0 + days,
    {
        Day(self.0 + days)
    }

    /// Convert this day to the simulation year it falls in (1-indexed).
    pub fn year(self) -> (y: Year)
        requires
            self.0 / DAYS_PER_YEAR < u32::MAX,
        ensures
            y.0 == year_of_day(self.0),
    {
        Year((self.0 / DAYS_PER_YEAR) as u32 + 1)
    }
}

/// Mutable per-year accumulator for premium and claims.
/// Held by agents to track year-to-date financials; reset at each year end.
#[derive(Debug, Clone, Copy, PartialEq, Eq, Structural)]
pub struct YearAccumulator {
    /// Gross premium written (cents).
    pub premium: u64,
    /// Total claims paid, all perils (cents).
    pub total_claims: u64,
    /// Attritional claims paid (cents).
    pub attritional_claims: u64,
    /// Sum insured written (cents).
    pub exposure: u64,
}

impl YearAccumulator {
    /// An accumulator with every counter at zero.
    pub fn new() -> (a: YearAccumulator)
        ensures
            a.is_zero(),
    {
        YearAccumulator { premium: 0, total_claims: 0, attritional_claims: 0, exposure: 0 }
    }

    /// All four counters are zero.
    pub open spec fn is_zero(self) -> bool {
        &&& self.premium == 0
        &&& self.total_claims == 0
        &&& self.attritional_claims == 0
        &&& self.exposure == 0
    }

    /// Reset all counters to zero (called at year end after deriving metrics).
    pub fn reset(&mut self)
        ensures
            final(self).is_zero(),
    {
        *self = YearAccumulator::new();
    }
}

impl Default for YearAccumulator {
    fn default() -> (a: YearAccumulator)
        ensures
            a.is_zero(),
    {
        YearAccumulator::new()
    }
}

} // verus!
