//! The simulation's timetable: when the year's events are scheduled, when an insured
//! comes back for renewal, when the first year's coverage requests arrive, and when a
//! new insurer may enter the market.
use vstd::prelude::*;

use crate::events::Event;
use crate::types::{Day, InsuredId, InsurerId, SubmissionId, Year, DAYS_PER_YEAR};

verus! {

/// Days from CoverageRequested to PolicyBound (the quoting chain's length).
pub const QUOTING_CHAIN_DAYS: u64 = 3;

/// Days in which the first year's coverage requests are spread.
pub const INITIAL_REQUEST_WINDOW: u64 = 180;

/// `SimulationStart` opens its first year on that year's first day.
pub fn first_year_start(year_start: Year) -> (r: (Day, Event))
    requires
        year_start.0 >= 1,
    ensures
        r == (Day(((year_start.0 - 1) * DAYS_PER_YEAR) as u64), Event::YearStart { year: year_start }),
{
    (Day::year_start(year_start), Event::YearStart { year: year_start })
}

/// The closing `YearEnd` of a year, on the year's last day.
pub fn year_end_event(year: Year) -> (r: (Day, Event))
    requires
        year.0 >= 1,
    ensures
        r == (Day((year.0 * DAYS_PER_YEAR - 1) as u64), Event::YearEnd { year }),
{
    (Day::year_end(year), Event::YearEnd { year })
}

/// After a `YearEnd`, the next year starts on its first day, as long as the run has years
/// left; after the last year nothing follows.
pub fn next_year_start(year: Year, total_years: u32) -> (r: Option<(Day, Event)>)
    ensures
        year.0 < total_years ==> r == Some(
            (Day((year.0 * DAYS_PER_YEAR) as u64), Event::YearStart { year: Year((year.0 + 1) as u32) }),
        ),
        year.0 >= total_years ==> r is None,
{
    if year.0 < total_years {
        let next = Year(year.0 + 1);
        Some((Day::year_start(next), Event::YearStart { year: next }))
    } else {
        None
    }
}

/// The day an insured asks again for cover after its quote was accepted, rejected or
/// dropped: timed so that the renewal's PolicyBound lands on the day the current policy
/// expires (361 days after acceptance).
pub fn renewal_day(day: Day) -> (d: Day)
    requires
        day.0 + 361 <= u64::MAX,
    ensures
        d.0 == day.0 + 361 - QUOTING_CHAIN_DAYS,
{
    day.offset(361 - QUOTING_CHAIN_DAYS)
}

/// The day offsets, within the first year, of the `n` insureds' first coverage requests:
/// insured `i` asks `i × 180 / n` days in (all on the first day when there is only one).
pub fn initial_request_offsets(n: usize) -> (v: Vec<u64>)
    requires
        n <= u32::MAX,
    ensures
        v@.len() == n,
        forall|i: int| 0 <= i < n ==> #[trigger] v@[i] == if n > 1 {
            (i * INITIAL_REQUEST_WINDOW / (n as int)) as u64
        } else {
            0
        },
        forall|i: int| 0 <= i < n ==> #[trigger] v@[i] < INITIAL_REQUEST_WINDOW || n <= 1,
{
    let mut v: Vec<u64> = Vec::new();
    let mut i: usize = 0;
    while i < n
        invariant
            i <= n,
            n <= u32::MAX,
            v@.len() == i,
            forall|j: int| 0 <= j < i ==> #[trigger] v@[j] == if n > 1 {
                (j * INITIAL_REQUEST_WINDOW / (n as int)) as u64
            } else {
                0
            },
            forall|j: int| 0 <= j < i ==> #[trigger] v@[j] < INITIAL_REQUEST_WINDOW || n <= 1,
        decreases n - i,
    {
        let off: u64 = if n > 1 {
            proof {
                assert(i * INITIAL_REQUEST_WINDOW < n * INITIAL_REQUEST_WINDOW) by (nonlinear_arith)
                    requires
                        i < n,
                ;
                assert((i * INITIAL_REQUEST_WINDOW) / (n as int) < INITIAL_REQUEST_WINDOW) by (nonlinear_arith)
                    requires
                        i < n,
                        n > 1,
                ;
            }
            (i as u64) * INITIAL_REQUEST_WINDOW / (n as u64)
        } else {
            0
        };
        v.push(off);
        i = i + 1;
    }
    v
}

/// Whether a new insurer may enter at the end of `year`: only after the warm-up, and not
/// in the year of the previous entry (one year's cooldown).
pub fn entry_window_open(year: Year, warmup_years: u32, last_entry_year: Option<u32>) -> (r: bool)
    ensures
        r == (year.0 > warmup_years && match last_entry_year {
            None => true,
            Some(y) => year.0 > y,
        }),
{
    if year.0 <= warmup_years {
        return false;
    }
    match last_entry_year {
        None => true,
        Some(y) => year.0.saturating_sub(y) >= 1,
    }
}

/// The insured's answer to a presented quote, on the day it is presented: acceptance at
/// the quoted premium when the rate is within what the insured will pay, rejection otherwise.
pub fn quote_response(
    day: Day,
    submission_id: SubmissionId,
    insured_id: InsuredId,
    insurer_id: InsurerId,
    premium: u64,
    acceptable: bool,
) -> (r: Vec<(Day, Event)>)
    ensures
        r@ == seq![
            (
                day,
                if acceptable {
                    Event::QuoteAccepted { submission_id, insured_id, insurer_id, premium }
                } else {
                    Event::QuoteRejected { submission_id, insured_id }
                },
            ),
        ],
{
    let mut r: Vec<(Day, Event)> = Vec::new();
    if acceptable {
        r.push((day, Event::QuoteAccepted { submission_id, insured_id, insurer_id, premium }));
    } else {
        r.push((day, Event::QuoteRejected { submission_id, insured_id }));
    }
    r
}

} // verus!
