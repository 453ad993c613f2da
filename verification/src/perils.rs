//! Placement of the year's catastrophe events: each event of the year's count falls
//! on a uniformly drawn day of the year and strikes one territory drawn uniformly from
//! the configured list. The draws come from the simulation's seeded ChaCha20
//! generator, in the same order on every run.
use rand::Rng;
use rand_chacha::ChaCha20Rng;

use vstd::prelude::*;

use crate::events::{Event, Peril};
use crate::types::{Day, Year, DAYS_PER_YEAR};

verus! {

/// The simulation's seeded random number generator.
#[verifier::external_type_specification]
#[verifier::external_body]
pub struct ExChaCha20Rng(ChaCha20Rng);

/// Draws from `rand::Rng::random_range` on the half-open range `lo..hi` of `u64`.
/// Claimed: the value lies in the range (the range is non-empty, so the call does not
/// panic), and the ghost record beside it holds the range asked for and the value drawn.
/// Which value comes out depends on the generator's state, so nothing more is said.
#[verifier::external_body]
fn random_u64_in(rng: &mut ChaCha20Rng, lo: u64, hi: u64) -> (r: (u64, Ghost<(int, int, int)>))
    requires
        lo < hi,
    ensures
        lo <= r.0 < hi,
        r.1@ == (lo as int, hi as int, r.0 as int),
{
    let v = rng.random_range(lo..hi);
    (v, Ghost((lo as int, hi as int, v as int)))
}

/// Draws from `rand::Rng::random_range` on the half-open range `0..n` of `usize`.
/// Claimed: the value is below `n` (which is positive, so the call does not panic), and
/// the ghost record beside it holds the range asked for and the value drawn. Which value
/// comes out depends on the generator's state, so nothing more is said.
#[verifier::external_body]
fn random_index(rng: &mut ChaCha20Rng, n: usize) -> (r: (usize, Ghost<(int, int, int)>))
    requires
        0 < n,
    ensures
        r.0 < n,
        r.1@ == (0int, n as int, r.0 as int),
{
    let v = rng.random_range(0..n);
    (v, Ghost((0int, n as int, v as int)))
}

/// `e` is the catastrophe of `year` with id `id` placed by a draw of day offset `offset`
/// and territory index `idx`: a windstorm on that day of the year, striking that
/// territory of `territories`.
pub open spec fn placed_event(
    e: (Day, Event),
    year: Year,
    id: u64,
    territories: Seq<String>,
    offset: u64,
    idx: usize,
) -> bool {
    &&& e.0 == Day(((year.0 - 1) * DAYS_PER_YEAR + offset) as u64)
    &&& e.1 matches Event::LossEvent { event_id, peril, territory } && event_id == id && peril
        == Peril::WindstormAtlantic && territory@ == territories[idx as int]@
}

/// Place the year's catastrophes from their draws: draw `i`, a day offset and a
/// territory index, becomes a windstorm on that day of the year striking that territory,
/// with the next event id.
pub fn place_loss_events(
    year: Year,
    territories: &Vec<String>,
    draws: &Vec<(u64, usize)>,
    next_id: &mut u64,
) -> (r: Vec<(Day, Event)>)
    requires
        year.0 >= 1,
        *old(next_id) + draws@.len() <= u64::MAX,
        forall|i: int|
            0 <= i < draws@.len() ==> (#[trigger] draws@[i]).1 < territories@.len() && (year.0 - 1)
                * DAYS_PER_YEAR + draws@[i].0 <= u64::MAX,
    ensures
        r@.len() == draws@.len(),
        *final(next_id) == *old(next_id) + draws@.len(),
        forall|i: int|
            0 <= i < draws@.len() ==> placed_event(
                #[trigger] r@[i],
                year,
                (*old(next_id) + i) as u64,
                territories@,
                draws@[i].0,
                draws@[i].1,
            ),
{
    let year_start = Day::year_start(year);
    let ghost first_id = *next_id;
    let mut r: Vec<(Day, Event)> = Vec::new();
    let mut k: usize = 0;
    while k < draws.len()
        invariant
            k <= draws@.len(),
            year_start.0 == (year.0 - 1) * DAYS_PER_YEAR,
            *next_id == first_id + k,
            first_id + draws@.len() <= u64::MAX,
            forall|i: int|
                0 <= i < draws@.len() ==> (#[trigger] draws@[i]).1 < territories@.len() && (year.0 - 1)
                    * DAYS_PER_YEAR + draws@[i].0 <= u64::MAX,
            r@.len() == k,
            forall|i: int|
                0 <= i < k ==> placed_event(
                    #[trigger] r@[i],
                    year,
                    (first_id + i) as u64,
                    territories@,
                    draws@[i].0,
                    draws@[i].1,
                ),
        decreases draws@.len() - k,
    {
        let (offset, idx) = draws[k];
        let event_id = *next_id;
        *next_id = *next_id + 1;
        let territory = territories[idx].clone();
        proof {
            assert(draws@[k as int] == (offset, idx));
        }
        let ev = (year_start.offset(offset), Event::LossEvent { event_id, peril: Peril::WindstormAtlantic, territory });
        r.push(ev);
        proof {
            assert(r@[k as int] == ev);
        }
        k = k + 1;
    }
    r
}

/// The draws behind a year's catastrophes: for each, a day offset asked for from
/// `1..360` and a territory index asked for from `0..n_territories`, with the values drawn.
pub open spec fn catastrophe_draws(record: Seq<((int, int, int), (int, int, int))>, n_territories: int) -> bool {
    forall|i: int|
        0 <= i < record.len() ==> {
            let (day, place) = #[trigger] record[i];
            &&& day.0 == 1 && day.1 == DAYS_PER_YEAR
            &&& place.0 == 0 && place.1 == n_territories
        }
}

/// Schedule the year's `count` catastrophe events. For each in turn, draw its day offset
/// from `1..360` and then its territory index from the list, and place it (see
/// `place_loss_events`) with the next event id. Returns the events and the record of the
/// draws behind them. With no territories nothing is drawn or scheduled and no id is used.
pub fn schedule_loss_events(
    count: u64,
    year: Year,
    territories: &Vec<String>,
    rng: &mut ChaCha20Rng,
    next_id: &mut u64,
) -> (r: (Vec<(Day, Event)>, Ghost<Seq<((int, int, int), (int, int, int))>>))
    requires
        year.0 >= 1,
        *old(next_id) + count <= u64::MAX,
    ensures
        territories@.len() == 0 ==> r.0@.len() == 0 && r.1@.len() == 0 && *final(next_id) == *old(next_id),
        territories@.len() > 0 ==> {
            &&& r.0@.len() == count
            &&& r.1@.len() == count
            &&& catastrophe_draws(r.1@, territories@.len() as int)
            &&& *final(next_id) == *old(next_id) + count
            &&& forall|i: int|
                0 <= i < count ==> placed_event(
                    #[trigger] r.0@[i],
                    year,
                    (*old(next_id) + i) as u64,
                    territories@,
                    r.1@[i].0.2 as u64,
                    r.1@[i].1.2 as usize,
                )
        },
{
    if territories.len() == 0 {
        return (Vec::new(), Ghost(Seq::empty()));
    }
    let ghost mut record: Seq<((int, int, int), (int, int, int))> = Seq::empty();
    let mut draws: Vec<(u64, usize)> = Vec::new();
    let mut k: u64 = 0;
    while k < count
        invariant
            k <= count,
            territories@.len() > 0,
            year.0 >= 1,
            draws@.len() == k,
            record.len() == k,
            catastrophe_draws(record, territories@.len() as int),
            forall|i: int|
                0 <= i < k ==> {
                    &&& (#[trigger] draws@[i]).0 as int == record[i].0.2
                    &&& draws@[i].1 as int == record[i].1.2
                    &&& 1 <= draws@[i].0 < DAYS_PER_YEAR
                    &&& draws@[i].1 < territories@.len()
                },
        decreases count - k,
    {
        let (offset, day_draw) = random_u64_in(rng, 1, DAYS_PER_YEAR);
        let (idx, place_draw) = random_index(rng, territories.len());
        let ghost before = draws@;
        draws.push((offset, idx));
        proof {
            record = record.push((day_draw@, place_draw@));
            assert forall|i: int| 0 <= i < k + 1 implies {
                &&& (#[trigger] draws@[i]).0 as int == record[i].0.2
                &&& draws@[i].1 as int == record[i].1.2
                &&& 1 <= draws@[i].0 < DAYS_PER_YEAR
                &&& draws@[i].1 < territories@.len()
            } by {
                if i < k {
                    assert(draws@[i] == before[i]);
                }
            }
        }
        k = k + 1;
    }
    proof {
        assert forall|i: int| 0 <= i < draws@.len() implies (#[trigger] draws@[i]).1 < territories@.len() && (year.0 - 1)
            * DAYS_PER_YEAR + draws@[i].0 <= u64::MAX by {
            assert(draws@[i].0 < DAYS_PER_YEAR);
        }
    }
    let r = place_loss_events(year, territories, &draws, next_id);
    proof {
        assert forall|i: int| 0 <= i < count implies draws@[i].0 == record[i].0.2 as u64 && draws@[i].1 == record[i].1.2 as usize by {
            assert(draws@[i].0 as int == record[i].0.2);
        }
    }
    (r, Ghost(record))
}

} // verus!
