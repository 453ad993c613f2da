//! Per-year market statistics read off a recorded event stream: premium and sum
//! insured bound, claims paid, ground-up losses by peril, event counts, assets
//! seeking cover, and the market's capital at each year end.
use std::collections::HashSet;

use vstd::prelude::*;

use crate::events::{Event, Peril, SimEvent};
use crate::integrity::{lemma_pair_key_injective, make_pair_key, pair_key};
use crate::stream::lemma_take_step;
use crate::types::{year_of_day, InsurerId};

verus! {

broadcast use vstd::std_specs::hash::group_hash_axioms;

/// Aggregate statistics of one simulated year.
#[derive(Debug, Clone, Copy, PartialEq, Eq, Structural)]
pub struct YearStats {
    pub year: u32,
    /// Sum of PolicyBound.premium in the year (cents).
    pub bound_premium: u64,
    /// Sum of PolicyBound.sum_insured in the year (cents).
    pub sum_insured: u64,
    /// Sum of ClaimSettled.amount in the year (cents).
    pub claims: u64,
    /// Sum of attritional AssetDamage.ground_up_loss (cents).
    pub attr_gul: u64,
    /// Sum of windstorm AssetDamage.ground_up_loss (cents).
    pub cat_gul: u64,
    /// Sum over insurers of their last known capital at the year's end (cents).
    pub total_capital: u64,
    /// Count of InsurerInsolvent events in the year.
    pub insolvent_count: u32,
    /// Count of SubmissionDropped events in the year.
    pub dropped_count: u32,
    /// Sum insured of the distinct insureds requesting cover in the year (cents).
    pub total_assets: u64,
    /// Count of windstorm LossEvent firings in the year.
    pub cat_event_count: u32,
    /// Count of InsurerEntered events in the year.
    pub entrant_count: u32,
    /// Count of InsurerExited events in the year.
    pub exit_count: u32,
    /// Count of InsurerReEntered events in the year.
    pub re_entry_count: u32,
}

impl YearStats {
    /// A year with nothing recorded.
    fn zero(year: u32) -> (s: YearStats)
        ensures
            s == zero_stats(year),
    {
        YearStats {
            year,
            bound_premium: 0,
            sum_insured: 0,
            claims: 0,
            attr_gul: 0,
            cat_gul: 0,
            total_capital: 0,
            insolvent_count: 0,
            dropped_count: 0,
            total_assets: 0,
            cat_event_count: 0,
            entrant_count: 0,
            exit_count: 0,
            re_entry_count: 0,
        }
    }
}

pub open spec fn zero_stats(year: u32) -> YearStats {
    YearStats {
        year,
        bound_premium: 0,
        sum_insured: 0,
        claims: 0,
        attr_gul: 0,
        cat_gul: 0,
        total_capital: 0,
        insolvent_count: 0,
        dropped_count: 0,
        total_assets: 0,
        cat_event_count: 0,
        entrant_count: 0,
        exit_count: 0,
        re_entry_count: 0,
    }
}

// ── What each event adds to its year ─────────────────────────────────────────

/// The amounts and counts an event adds to the statistics of the year it falls in.
pub struct Tally {
    pub premium: nat,
    pub sum_insured: nat,
    pub claims: nat,
    pub attr_gul: nat,
    pub cat_gul: nat,
    pub insolvent: nat,
    pub dropped: nat,
    pub cat_events: nat,
    pub entrants: nat,
    pub exits: nat,
    pub re_entries: nat,
    /// Sum insured of a coverage request (counted once per insured and year).
    pub requested: nat,
}

pub open spec fn no_tally() -> Tally {
    Tally {
        premium: 0,
        sum_insured: 0,
        claims: 0,
        attr_gul: 0,
        cat_gul: 0,
        insolvent: 0,
        dropped: 0,
        cat_events: 0,
        entrants: 0,
        exits: 0,
        re_entries: 0,
        requested: 0,
    }
}

pub open spec fn tally_of(e: Event) -> Tally {
    match e {
        Event::PolicyBound { premium, sum_insured, .. } => Tally {
            premium: premium as nat,
            sum_insured: sum_insured as nat,
            ..no_tally()
        },
        Event::ClaimSettled { amount, .. } => Tally { claims: amount as nat, ..no_tally() },
        Event::AssetDamage { peril, ground_up_loss, .. } => match peril {
            Peril::Attritional => Tally { attr_gul: ground_up_loss as nat, ..no_tally() },
            Peril::WindstormAtlantic => Tally { cat_gul: ground_up_loss as nat, ..no_tally() },
        },
        Event::InsurerInsolvent { .. } => Tally { insolvent: 1, ..no_tally() },
        Event::SubmissionDropped { .. } => Tally { dropped: 1, ..no_tally() },
        Event::LossEvent { peril, .. } => if peril == Peril::WindstormAtlantic {
            Tally { cat_events: 1, ..no_tally() }
        } else {
            no_tally()
        },
        Event::InsurerEntered { .. } => Tally { entrants: 1, ..no_tally() },
        Event::InsurerExited { .. } => Tally { exits: 1, ..no_tally() },
        Event::InsurerReEntered { .. } => Tally { re_entries: 1, ..no_tally() },
        Event::CoverageRequested { risk, .. } => Tally { requested: risk.sum_insured as nat, ..no_tally() },
        _ => no_tally(),
    }
}

pub open spec fn add_tally(a: Tally, b: Tally) -> Tally {
    Tally {
        premium: a.premium + b.premium,
        sum_insured: a.sum_insured + b.sum_insured,
        claims: a.claims + b.claims,
        attr_gul: a.attr_gul + b.attr_gul,
        cat_gul: a.cat_gul + b.cat_gul,
        insolvent: a.insolvent + b.insolvent,
        dropped: a.dropped + b.dropped,
        cat_events: a.cat_events + b.cat_events,
        entrants: a.entrants + b.entrants,
        exits: a.exits + b.exits,
        re_entries: a.re_entries + b.re_entries,
        requested: a.requested + b.requested,
    }
}

/// The year (from 1) an event's day falls in.
pub open spec fn event_year(e: SimEvent) -> int {
    year_of_day(e.day.0)
}

/// The totals of every event in `s` that falls in year `y`.
pub open spec fn year_tally(s: Seq<SimEvent>, y: int) -> Tally
    decreases s.len(),
{
    if s.len() == 0 {
        no_tally()
    } else {
        let t = year_tally(s.drop_last(), y);
        if event_year(s.last()) == y {
            add_tally(t, tally_of(s.last().event))
        } else {
            t
        }
    }
}

/// The totals of every event in `s`, whatever its year.
pub open spec fn stream_tally(s: Seq<SimEvent>) -> Tally
    decreases s.len(),
{
    if s.len() == 0 {
        no_tally()
    } else {
        add_tally(stream_tally(s.drop_last()), tally_of(s.last().event))
    }
}

// ── Assets seeking cover ─────────────────────────────────────────────────────

/// Whether `s` holds a coverage request from insured `id` in year `y`.
pub open spec fn requested_in(s: Seq<SimEvent>, y: int, id: u64) -> bool {
    exists|i: int| 0 <= i < s.len() && #[trigger] requests_in(s[i], y, id)
}

pub open spec fn requests_in(e: SimEvent, y: int, id: u64) -> bool {
    e.event matches Event::CoverageRequested { insured_id, .. } && insured_id.0 == id && event_year(e) == y
}

/// The sum insured of the distinct insureds requesting cover in year `y`, each counted
/// at its first request of the year.
pub open spec fn assets_total(s: Seq<SimEvent>, y: int) -> nat
    decreases s.len(),
{
    if s.len() == 0 {
        0
    } else {
        let prev = assets_total(s.drop_last(), y);
        match s.last().event {
            Event::CoverageRequested { insured_id, risk } => if event_year(s.last()) == y
                && !requested_in(s.drop_last(), y, insured_id.0) {
                prev + risk.sum_insured as nat
            } else {
                prev
            },
            _ => prev,
        }
    }
}

// ── Capital book ─────────────────────────────────────────────────────────────

/// The first position of insurer `k` in the book `b`, or `b.len()` when absent.
pub open spec fn book_slot(b: Seq<(u64, u64)>, k: u64) -> int
    decreases b.len(),
{
    if b.len() == 0 {
        0
    } else if b[0].0 == k {
        0
    } else {
        1 + book_slot(b.drop_first(), k)
    }
}

/// The book with insurer `k`'s capital set to `v`.
pub open spec fn book_set(b: Seq<(u64, u64)>, k: u64, v: u64) -> Seq<(u64, u64)> {
    let i = book_slot(b, k);
    if i < b.len() {
        b.update(i, (k, v))
    } else {
        b.push((k, v))
    }
}

/// The book seeded with the initial capitals (a later entry for an insurer replaces an
/// earlier one).
pub open spec fn initial_book(initials: Seq<(InsurerId, u64)>) -> Seq<(u64, u64)>
    decreases initials.len(),
{
    if initials.len() == 0 {
        Seq::empty()
    } else {
        book_set(initial_book(initials.drop_last()), initials.last().0.0, initials.last().1)
    }
}

/// Each insurer's last known capital after the events of `s`: the capital reported by
/// its latest claim or its entry, else its initial capital.
pub open spec fn book_after(initials: Seq<(InsurerId, u64)>, s: Seq<SimEvent>) -> Seq<(u64, u64)>
    decreases s.len(),
{
    if s.len() == 0 {
        initial_book(initials)
    } else {
        let b = book_after(initials, s.drop_last());
        match s.last().event {
            Event::ClaimSettled { insurer_id, remaining_capital, .. } => book_set(b, insurer_id.0, remaining_capital),
            Event::InsurerEntered { insurer_id, initial_capital } => book_set(b, insurer_id.0, initial_capital),
            _ => b,
        }
    }
}

/// The total capital in a book.
pub open spec fn book_total(b: Seq<(u64, u64)>) -> nat
    decreases b.len(),
{
    if b.len() == 0 {
        0
    } else {
        book_total(b.drop_last()) + b.last().1 as nat
    }
}

/// The market's capital as recorded at the last `YearEnd` of year `y` in `s`, if any.
pub open spec fn capital_snapshot(initials: Seq<(InsurerId, u64)>, s: Seq<SimEvent>, y: int) -> Option<nat>
    decreases s.len(),
{
    if s.len() == 0 {
        None
    } else if s.last().event matches Event::YearEnd { year } && year.0 == y {
        Some(book_total(book_after(initials, s.drop_last())))
    } else {
        capital_snapshot(initials, s.drop_last(), y)
    }
}

// ── Years and warm-up ────────────────────────────────────────────────────────

/// Whether event `e` opens an entry for year `y`: a year-end closes its own year; the
/// statistics events count toward the year their day falls in.
pub open spec fn touches(e: SimEvent, y: int) -> bool {
    match e.event {
        Event::YearEnd { year } => year.0 == y,
        Event::PolicyBound { .. } | Event::ClaimSettled { .. } | Event::AssetDamage { .. }
        | Event::InsurerInsolvent { .. } | Event::SubmissionDropped { .. } | Event::InsurerEntered {
            ..
        } | Event::InsurerExited { .. } | Event::InsurerReEntered { .. } | Event::CoverageRequested {
            ..
        } => event_year(e) == y,
        Event::LossEvent { peril, .. } => peril == Peril::WindstormAtlantic && event_year(e) == y,
        _ => false,
    }
}

/// Whether some event of `s` opens an entry for year `y`.
pub open spec fn touched(s: Seq<SimEvent>, y: int) -> bool {
    exists|i: int| 0 <= i < s.len() && #[trigger] touches(s[i], y)
}

/// The warm-up length announced by the first `SimulationStart`, if there is one.
pub open spec fn first_warmup(s: Seq<SimEvent>) -> Option<u32>
    decreases s.len(),
{
    if s.len() == 0 {
        None
    } else {
        match first_warmup(s.drop_last()) {
            Some(w) => Some(w),
            None => match s.last().event {
                Event::SimulationStart { warmup_years, .. } => Some(warmup_years),
                _ => None,
            },
        }
    }
}

/// The warm-up length of the run recorded in `s` (0 when unannounced).
pub open spec fn warmup_of(s: Seq<SimEvent>) -> u32 {
    match first_warmup(s) {
        Some(w) => w,
        None => 0,
    }
}

/// The statistics of year `y` read off `s`.
pub open spec fn stats_of(initials: Seq<(InsurerId, u64)>, s: Seq<SimEvent>, y: u32) -> YearStats {
    let t = year_tally(s, y as int);
    YearStats {
        year: y,
        bound_premium: t.premium as u64,
        sum_insured: t.sum_insured as u64,
        claims: t.claims as u64,
        attr_gul: t.attr_gul as u64,
        cat_gul: t.cat_gul as u64,
        total_capital: match capital_snapshot(initials, s, y as int) {
            Some(c) => c as u64,
            None => 0,
        },
        insolvent_count: t.insolvent as u32,
        dropped_count: t.dropped as u32,
        total_assets: assets_total(s, y as int) as u64,
        cat_event_count: t.cat_events as u32,
        entrant_count: t.entrants as u32,
        exit_count: t.exits as u32,
        re_entry_count: t.re_entries as u32,
    }
}

/// The stream is small enough for the statistics to be counted in their fields: at most
/// `u32::MAX` events, every day within the `u32` year range, every amount total within
/// `u64`, and the market's capital within `u64` at every year end.
pub open spec fn stats_in_range(initials: Seq<(InsurerId, u64)>, s: Seq<SimEvent>) -> bool {
    let t = stream_tally(s);
    &&& s.len() <= u32::MAX
    &&& forall|i: int| 0 <= i < s.len() ==> #[trigger] s[i].day.0 / 360 < u32::MAX
    &&& t.premium <= u64::MAX
    &&& t.sum_insured <= u64::MAX
    &&& t.claims <= u64::MAX
    &&& t.attr_gul <= u64::MAX
    &&& t.cat_gul <= u64::MAX
    &&& t.requested <= u64::MAX
    &&& forall|i: int|
        0 <= i < s.len() && (#[trigger] s[i]).event is YearEnd ==> book_total(book_after(initials, s.take(i)))
            <= u64::MAX
}


// ── Lemmas ───────────────────────────────────────────────────────────────────

/// A year's totals are part of the stream's totals.
proof fn lemma_year_within_stream(s: Seq<SimEvent>, y: int)
    ensures
        year_tally(s, y).premium <= stream_tally(s).premium,
        year_tally(s, y).sum_insured <= stream_tally(s).sum_insured,
        year_tally(s, y).claims <= stream_tally(s).claims,
        year_tally(s, y).attr_gul <= stream_tally(s).attr_gul,
        year_tally(s, y).cat_gul <= stream_tally(s).cat_gul,
        year_tally(s, y).insolvent <= stream_tally(s).insolvent,
        year_tally(s, y).dropped <= stream_tally(s).dropped,
        year_tally(s, y).cat_events <= stream_tally(s).cat_events,
        year_tally(s, y).entrants <= stream_tally(s).entrants,
        year_tally(s, y).exits <= stream_tally(s).exits,
        year_tally(s, y).re_entries <= stream_tally(s).re_entries,
        assets_total(s, y) <= stream_tally(s).requested,
    decreases s.len(),
{
    if s.len() > 0 {
        lemma_year_within_stream(s.drop_last(), y);
    }
}

/// A prefix's totals are part of the whole stream's totals.
proof fn lemma_prefix_within_stream(s: Seq<SimEvent>, i: int)
    requires
        0 <= i <= s.len(),
    ensures
        stream_tally(s.take(i)).premium <= stream_tally(s).premium,
        stream_tally(s.take(i)).sum_insured <= stream_tally(s).sum_insured,
        stream_tally(s.take(i)).claims <= stream_tally(s).claims,
        stream_tally(s.take(i)).attr_gul <= stream_tally(s).attr_gul,
        stream_tally(s.take(i)).cat_gul <= stream_tally(s).cat_gul,
        stream_tally(s.take(i)).requested <= stream_tally(s).requested,
    decreases s.len() - i,
{
    if i < s.len() {
        lemma_prefix_within_stream(s, i + 1);
        lemma_take_step(s, i);
    } else {
        assert(s.take(i) =~= s);
    }
}

/// Each event counts at most once toward each count.
proof fn lemma_counts_within_length(s: Seq<SimEvent>)
    ensures
        stream_tally(s).insolvent <= s.len(),
        stream_tally(s).dropped <= s.len(),
        stream_tally(s).cat_events <= s.len(),
        stream_tally(s).entrants <= s.len(),
        stream_tally(s).exits <= s.len(),
        stream_tally(s).re_entries <= s.len(),
    decreases s.len(),
{
    if s.len() > 0 {
        lemma_counts_within_length(s.drop_last());
    }
}

/// A year no event opens has nothing recorded.
proof fn lemma_untouched_year(initials: Seq<(InsurerId, u64)>, s: Seq<SimEvent>, y: int)
    requires
        !touched(s, y),
    ensures
        year_tally(s, y) == no_tally(),
        assets_total(s, y) == 0,
        capital_snapshot(initials, s, y) is None,
    decreases s.len(),
{
    if s.len() > 0 {
        let t = s.drop_last();
        assert(!touched(t, y)) by {
            if touched(t, y) {
                let i = choose|i: int| 0 <= i < t.len() && #[trigger] touches(t[i], y);
                assert(s[i] == t[i]);
            }
        }
        lemma_untouched_year(initials, t, y);
        assert(!touches(s[s.len() - 1], y));
    }
}

/// A book's total, and the total of each of its prefixes.
proof fn lemma_book_prefix_total(b: Seq<(u64, u64)>, j: int)
    requires
        0 <= j < b.len(),
    ensures
        book_total(b.take(j + 1)) == book_total(b.take(j)) + b[j].1,
        book_total(b.take(j + 1)) <= book_total(b),
    decreases b.len() - j,
{
    assert(b.take(j + 1).drop_last() =~= b.take(j));
    if j + 1 < b.len() {
        lemma_book_prefix_total(b, j + 1);
    } else {
        assert(b.take(j + 1) =~= b);
    }
}

/// Setting an insurer's capital in the book: its first position is found by scanning.
proof fn lemma_book_slot(b: Seq<(u64, u64)>, k: u64, i: int)
    requires
        0 <= i <= b.len(),
        forall|j: int| 0 <= j < i ==> b[j].0 != k,
        i == b.len() || b[i].0 == k,
    ensures
        book_slot(b, k) == i,
    decreases i,
{
    if i > 0 {
        lemma_book_slot(b.drop_first(), k, i - 1);
    }
}


/// How the statistics, the book, the requests seen and the years touched move on by
/// one event.
proof fn lemma_stats_step(initials: Seq<(InsurerId, u64)>, s: Seq<SimEvent>, i: int)
    requires
        0 <= i < s.len(),
    ensures
        forall|y: int| #[trigger] year_tally(s.take(i + 1), y) == if event_year(s[i]) == y {
            add_tally(year_tally(s.take(i), y), tally_of(s[i].event))
        } else {
            year_tally(s.take(i), y)
        },
        forall|y: int| #[trigger] assets_total(s.take(i + 1), y) == assets_total(s.take(i), y) + match s[i].event {
            Event::CoverageRequested { insured_id, risk } => if event_year(s[i]) == y && !requested_in(s.take(i), y, insured_id.0) {
                risk.sum_insured as nat
            } else {
                0
            },
            _ => 0,
        },
        forall|y: int| #[trigger] capital_snapshot(initials, s.take(i + 1), y) == if s[i].event matches Event::YearEnd { year } && year.0 == y {
            Some(book_total(book_after(initials, s.take(i))))
        } else {
            capital_snapshot(initials, s.take(i), y)
        },
        book_after(initials, s.take(i + 1)) == match s[i].event {
            Event::ClaimSettled { insurer_id, remaining_capital, .. } => book_set(book_after(initials, s.take(i)), insurer_id.0, remaining_capital),
            Event::InsurerEntered { insurer_id, initial_capital } => book_set(book_after(initials, s.take(i)), insurer_id.0, initial_capital),
            _ => book_after(initials, s.take(i)),
        },
        forall|y: int| #[trigger] touched(s.take(i + 1), y) <==> (touched(s.take(i), y) || touches(s[i], y)),
        forall|y: int, id: u64| #[trigger] requested_in(s.take(i + 1), y, id) <==> (requested_in(s.take(i), y, id) || requests_in(s[i], y, id)),
{
    lemma_take_step(s, i);
    let p = s.take(i);
    let q = s.take(i + 1);
    assert forall|y: int| #[trigger] touched(q, y) <==> (touched(p, y) || touches(s[i], y)) by {
        if touched(q, y) {
            let j = choose|j: int| 0 <= j < q.len() && #[trigger] touches(q[j], y);
            if j < i {
                assert(p[j] == q[j]);
            }
        }
        if touched(p, y) {
            let j = choose|j: int| 0 <= j < p.len() && #[trigger] touches(p[j], y);
            assert(q[j] == p[j]);
        }
        if touches(s[i], y) {
            assert(q[i] == s[i]);
        }
    }
    assert forall|y: int, id: u64| #[trigger] requested_in(q, y, id) <==> (requested_in(p, y, id) || requests_in(s[i], y, id)) by {
        if requested_in(q, y, id) {
            let j = choose|j: int| 0 <= j < q.len() && #[trigger] requests_in(q[j], y, id);
            if j < i {
                assert(p[j] == q[j]);
            }
        }
        if requested_in(p, y, id) {
            let j = choose|j: int| 0 <= j < p.len() && #[trigger] requests_in(p[j], y, id);
            assert(q[j] == p[j]);
        }
        if requests_in(s[i], y, id) {
            assert(q[i] == s[i]);
        }
    }
}

/// What the statistics pass knows after reading the prefix `p`.
spec fn tracks(
    initials: Seq<(InsurerId, u64)>,
    p: Seq<SimEvent>,
    stats: Seq<YearStats>,
    book: Seq<(u64, u64)>,
    seen: Set<u128>,
) -> bool {
    &&& book == book_after(initials, p)
    &&& forall|y: u64, id: u64| #[trigger] seen.contains(pair_key(y, id)) <==> requested_in(p, y as int, id)
    &&& forall|a: int, b: int| 0 <= a < b < stats.len() ==> (#[trigger] stats[a]).year != (#[trigger] stats[b]).year
    &&& forall|k: int| 0 <= k < stats.len() ==> #[trigger] stats[k] == stats_of(initials, p, stats[k].year)
    &&& forall|k: int| 0 <= k < stats.len() ==> touched(p, (#[trigger] stats[k]).year as int)
    &&& forall|y: u32| touched(p, y as int) ==> #[trigger] lists_year(stats, y)
}

/// Whether `stats` holds an entry for year `y`.
pub open spec fn lists_year(stats: Seq<YearStats>, y: u32) -> bool {
    exists|k: int| 0 <= k < stats.len() && (#[trigger] stats[k]).year == y
}

/// Set insurer `k`'s capital in the book.
fn book_put(book: &mut Vec<(u64, u64)>, k: u64, v: u64)
    ensures
        final(book)@ == book_set(old(book)@, k, v),
{
    let mut i: usize = 0;
    while i < book.len() && book[i].0 != k
        invariant
            i <= book@.len(),
            book@ == old(book)@,
            forall|j: int| 0 <= j < i ==> book@[j].0 != k,
        decreases book@.len() - i,
    {
        i = i + 1;
    }
    proof {
        lemma_book_slot(book@, k, i as int);
    }
    if i < book.len() {
        book.set(i, (k, v));
    } else {
        book.push((k, v));
    }
}

/// The total capital in the book.
fn book_sum(book: &Vec<(u64, u64)>) -> (total: u64)
    requires
        book_total(book@) <= u64::MAX,
    ensures
        total == book_total(book@),
{
    let mut total: u64 = 0;
    let mut j: usize = 0;
    proof {
        assert(book@.take(0) =~= Seq::<(u64, u64)>::empty());
    }
    while j < book.len()
        invariant
            j <= book@.len(),
            book_total(book@) <= u64::MAX,
            total == book_total(book@.take(j as int)),
        decreases book@.len() - j,
    {
        proof {
            lemma_book_prefix_total(book@, j as int);
        }
        total = total + book[j].1;
        j = j + 1;
    }
    proof {
        assert(book@.take(book@.len() as int) =~= book@);
    }
    total
}

/// The position of year `y` among the statistics, opening an empty entry for it if
/// there is none yet.
fn year_slot(stats: &mut Vec<YearStats>, y: u32) -> (k: usize)
    requires
        forall|a: int, b: int| 0 <= a < b < old(stats)@.len() ==> (#[trigger] old(stats)@[a]).year != (#[trigger] old(stats)@[b]).year,
    ensures
        k < final(stats)@.len(),
        final(stats)@[k as int].year == y,
        lists_year(old(stats)@, y) ==> final(stats)@ == old(stats)@,
        !lists_year(old(stats)@, y) ==> final(stats)@ == old(stats)@.push(zero_stats(y)) && k == old(stats)@.len(),
{
    let mut i: usize = 0;
    while i < stats.len()
        invariant
            i <= stats@.len(),
            stats@ == old(stats)@,
            forall|j: int| 0 <= j < i ==> stats@[j].year != y,
        decreases stats@.len() - i,
    {
        if stats[i].year == y {
            return i;
        }
        i = i + 1;
    }
    stats.push(YearStats::zero(y));
    i
}


/// The year entry an event moves: its own year for a year end; the year it falls in for
/// the statistics events (a coverage request only when it is the insured's first of the
/// year); none otherwise.
spec fn slot_year(e: SimEvent, new_request: bool) -> Option<u32> {
    match e.event {
        Event::YearEnd { year } => Some(year.0),
        Event::PolicyBound { .. } | Event::ClaimSettled { .. } | Event::AssetDamage { .. }
        | Event::InsurerInsolvent { .. } | Event::SubmissionDropped { .. } | Event::InsurerEntered {
            ..
        } | Event::InsurerExited { .. } | Event::InsurerReEntered { .. } => Some(event_year(e) as u32),
        Event::LossEvent { peril, .. } => if peril == Peril::WindstormAtlantic {
            Some(event_year(e) as u32)
        } else {
            None
        },
        Event::CoverageRequested { .. } => if new_request {
            Some(event_year(e) as u32)
        } else {
            None
        },
        _ => None,
    }
}

/// A year entry after the event that moves it: a year end records the capital; any
/// other event adds its tally.
spec fn moved(st: YearStats, e: SimEvent, capital: nat) -> YearStats {
    match e.event {
        Event::YearEnd { .. } => YearStats { total_capital: capital as u64, ..st },
        _ => {
            let t = tally_of(e.event);
            YearStats {
                year: st.year,
                bound_premium: (st.bound_premium + t.premium) as u64,
                sum_insured: (st.sum_insured + t.sum_insured) as u64,
                claims: (st.claims + t.claims) as u64,
                attr_gul: (st.attr_gul + t.attr_gul) as u64,
                cat_gul: (st.cat_gul + t.cat_gul) as u64,
                total_capital: st.total_capital,
                insolvent_count: (st.insolvent_count + t.insolvent) as u32,
                dropped_count: (st.dropped_count + t.dropped) as u32,
                total_assets: (st.total_assets + t.requested) as u64,
                cat_event_count: (st.cat_event_count + t.cat_events) as u32,
                entrant_count: (st.entrant_count + t.entrants) as u32,
                exit_count: (st.exit_count + t.exits) as u32,
                re_entry_count: (st.re_entry_count + t.re_entries) as u32,
            }
        },
    }
}

/// Facts about event `i` that the steps below share.
spec fn step_facts(initials: Seq<(InsurerId, u64)>, s: Seq<SimEvent>, i: int, new_request: bool) -> bool {
    &&& 0 <= i < s.len()
    &&& stats_in_range(initials, s)
    &&& s[i].event is CoverageRequested ==> (new_request <==> !requested_in(
        s.take(i),
        event_year(s[i]),
        s[i].event->CoverageRequested_insured_id.0,
    ))
}

/// Years other than the one an event moves keep their statistics.
proof fn lemma_other_year_kept(initials: Seq<(InsurerId, u64)>, s: Seq<SimEvent>, i: int, new_request: bool, y2: u32)
    requires
        step_facts(initials, s, i, new_request),
        slot_year(s[i], new_request) != Some(y2),
    ensures
        stats_of(initials, s.take(i + 1), y2) == stats_of(initials, s.take(i), y2),
{
    lemma_stats_step(initials, s, i);
    assert(s[i].day.0 / 360 < u32::MAX);
}

/// The year an event moves gets the event's tally, or, at a year end, the capital.
proof fn lemma_moved_year(
    initials: Seq<(InsurerId, u64)>,
    s: Seq<SimEvent>,
    i: int,
    new_request: bool,
    yy: u32,
    st: YearStats,
)
    requires
        step_facts(initials, s, i, new_request),
        slot_year(s[i], new_request) == Some(yy),
        st == stats_of(initials, s.take(i), yy),
    ensures
        moved(st, s[i], book_total(book_after(initials, s.take(i)))) == stats_of(initials, s.take(i + 1), yy),
{
    let q = s.take(i + 1);
    lemma_stats_step(initials, s, i);
    lemma_take_step(s, i);
    lemma_prefix_within_stream(s, i + 1);
    lemma_counts_within_length(q);
    lemma_year_within_stream(q, yy as int);
    lemma_year_within_stream(s.take(i), yy as int);
    assert(s[i].day.0 / 360 < u32::MAX);
}

/// Reading one event keeps the year entries in step with the stream.
proof fn lemma_record_closes(
    initials: Seq<(InsurerId, u64)>,
    s: Seq<SimEvent>,
    i: int,
    old_stats: Seq<YearStats>,
    mid: Seq<YearStats>,
    k: int,
    new_stats: Seq<YearStats>,
    new_request: bool,
)
    requires
        step_facts(initials, s, i, new_request),
        forall|a: int, b: int| 0 <= a < b < old_stats.len() ==> (#[trigger] old_stats[a]).year != (#[trigger] old_stats[b]).year,
        forall|j: int| 0 <= j < old_stats.len() ==> #[trigger] old_stats[j] == stats_of(initials, s.take(i), old_stats[j].year),
        forall|j: int| 0 <= j < old_stats.len() ==> touched(s.take(i), (#[trigger] old_stats[j]).year as int),
        forall|y: u32| touched(s.take(i), y as int) ==> #[trigger] lists_year(old_stats, y),
        slot_year(s[i], new_request) is None ==> new_stats == old_stats,
        slot_year(s[i], new_request) matches Some(yy) ==> {
            &&& 0 <= k < mid.len()
            &&& mid[k].year == yy
            &&& lists_year(old_stats, yy) ==> mid == old_stats
            &&& !lists_year(old_stats, yy) ==> mid == old_stats.push(zero_stats(yy)) && k == old_stats.len()
            &&& new_stats == mid.update(k, moved(mid[k], s[i], book_total(book_after(initials, s.take(i)))))
        },
    ensures
        forall|a: int, b: int| 0 <= a < b < new_stats.len() ==> (#[trigger] new_stats[a]).year != (#[trigger] new_stats[b]).year,
        forall|j: int| 0 <= j < new_stats.len() ==> #[trigger] new_stats[j] == stats_of(initials, s.take(i + 1), new_stats[j].year),
        forall|j: int| 0 <= j < new_stats.len() ==> touched(s.take(i + 1), (#[trigger] new_stats[j]).year as int),
        forall|y: u32| touched(s.take(i + 1), y as int) ==> #[trigger] lists_year(new_stats, y),
{
    let p = s.take(i);
    let q = s.take(i + 1);
    let e = s[i];
    lemma_stats_step(initials, s, i);
    assert(e.day.0 / 360 < u32::MAX);
    let ey = event_year(e);
    // A coverage request that is not the insured's first of the year was preceded by one.
    if e.event is CoverageRequested && !new_request {
        let id = e.event->CoverageRequested_insured_id.0;
        let j = choose|j: int| 0 <= j < p.len() && #[trigger] requests_in(p[j], ey, id);
        assert(touches(p[j], ey));
    }
    match slot_year(e, new_request) {
        None => {
            assert forall|j: int| 0 <= j < new_stats.len() implies #[trigger] new_stats[j] == stats_of(
                initials,
                q,
                new_stats[j].year,
            ) by {
                lemma_other_year_kept(initials, s, i, new_request, new_stats[j].year);
            }
            assert forall|y: u32| touched(q, y as int) implies #[trigger] lists_year(new_stats, y) by {
                if !touched(p, y as int) {
                    assert(touches(e, y as int));
                }
            }
        },
        Some(yy) => {
            // The entry the event moves held the statistics of the prefix.
            if !lists_year(old_stats, yy) {
                assert(!touched(p, yy as int));
                lemma_untouched_year(initials, p, yy as int);
            } else {
                let j = choose|j: int| 0 <= j < old_stats.len() && (#[trigger] old_stats[j]).year == yy;
                assert(old_stats[k] == old_stats[j]);
            }
            assert(mid[k] == stats_of(initials, p, yy));
            lemma_moved_year(initials, s, i, new_request, yy, mid[k]);
            assert forall|a: int, b: int| 0 <= a < b < new_stats.len() implies (#[trigger] new_stats[a]).year
                != (#[trigger] new_stats[b]).year by {
                assert(new_stats[a].year == mid[a].year && new_stats[b].year == mid[b].year);
                if !lists_year(old_stats, yy) && b == old_stats.len() {
                    assert(old_stats[a].year != yy);
                }
            }
            assert forall|j: int| 0 <= j < new_stats.len() implies #[trigger] new_stats[j] == stats_of(
                initials,
                q,
                new_stats[j].year,
            ) by {
                if j != k {
                    assert(new_stats[j] == old_stats[j]);
                    assert(old_stats[j].year != yy);
                    lemma_other_year_kept(initials, s, i, new_request, old_stats[j].year);
                }
            }
            assert forall|j: int| 0 <= j < new_stats.len() implies touched(q, (#[trigger] new_stats[j]).year as int) by {
                if j != k {
                    assert(new_stats[j] == old_stats[j]);
                    assert(touched(p, old_stats[j].year as int));
                } else {
                    assert(touches(e, yy as int));
                }
            }
            assert forall|y: u32| touched(q, y as int) implies #[trigger] lists_year(new_stats, y) by {
                if touched(p, y as int) {
                    assert(lists_year(old_stats, y));
                    let j = choose|j: int| 0 <= j < old_stats.len() && (#[trigger] old_stats[j]).year == y;
                    assert(new_stats[j].year == mid[j].year);
                    assert(new_stats[j].year == y);
                } else {
                    assert(touches(e, y as int));
                    assert(new_stats[k].year == y);
                }
            }
        },
    }
}

/// Read event `i` into the statistics, the capital book and the requests seen.
#[verifier::rlimit(50)]
fn record_event(
    stats: &mut Vec<YearStats>,
    book: &mut Vec<(u64, u64)>,
    seen: &mut HashSet<u128>,
    events: &[SimEvent],
    i: usize,
    Ghost(initials): Ghost<Seq<(InsurerId, u64)>>,
)
    requires
        i < events@.len(),
        stats_in_range(initials, events@),
        tracks(initials, events@.take(i as int), old(stats)@, old(book)@, old(seen)@),
    ensures
        tracks(initials, events@.take(i + 1), final(stats)@, final(book)@, final(seen)@),
{
    let ghost s = events@;
    let ghost p = s.take(i as int);
    let ghost q = s.take(i + 1);
    let ghost e = s[i as int];
    proof {
        lemma_stats_step(initials, s, i as int);
        lemma_take_step(s, i as int);
        lemma_prefix_within_stream(s, i + 1);
        lemma_counts_within_length(q);
        assert(s[i as int].day.0 / 360 < u32::MAX);
    }
    let y = events[i].day.year().0;
    let ghost old_stats = stats@;
    let ghost old_book = book@;
    let ghost old_seen = seen@;
    let ghost mut g_mid: Seq<YearStats> = stats@;
    let ghost mut g_k: int = 0;
    let ghost mut new_request: bool = false;
    // Which year's entry this event moves, if any.
    let mut slot: Option<usize> = None;
    match &events[i].event {
        Event::PolicyBound { premium, sum_insured, .. } => {
            proof { lemma_year_within_stream(q, y as int); }
            let k = year_slot(stats, y);
            let st = stats[k];
            proof { g_mid = stats@; g_k = k as int; }
            stats.set(k, YearStats { bound_premium: st.bound_premium + *premium, sum_insured: st.sum_insured + *sum_insured, ..st });
            slot = Some(k);
        },
        Event::ClaimSettled { insurer_id, amount, remaining_capital, .. } => {
            proof { lemma_year_within_stream(q, y as int); }
            book_put(book, insurer_id.0, *remaining_capital);
            let k = year_slot(stats, y);
            let st = stats[k];
            proof { g_mid = stats@; g_k = k as int; }
            stats.set(k, YearStats { claims: st.claims + *amount, ..st });
            slot = Some(k);
        },
        Event::AssetDamage { peril, ground_up_loss, .. } => {
            proof { lemma_year_within_stream(q, y as int); }
            let k = year_slot(stats, y);
            let st = stats[k];
            proof { g_mid = stats@; g_k = k as int; }
            match peril {
                Peril::Attritional => {
                    stats.set(k, YearStats { attr_gul: st.attr_gul + *ground_up_loss, ..st });
                },
                Peril::WindstormAtlantic => {
                    stats.set(k, YearStats { cat_gul: st.cat_gul + *ground_up_loss, ..st });
                },
            }
            slot = Some(k);
        },
        Event::InsurerInsolvent { .. } => {
            proof { lemma_year_within_stream(q, y as int); }
            let k = year_slot(stats, y);
            let st = stats[k];
            proof { g_mid = stats@; g_k = k as int; }
            stats.set(k, YearStats { insolvent_count: st.insolvent_count + 1, ..st });
            slot = Some(k);
        },
        Event::SubmissionDropped { .. } => {
            proof { lemma_year_within_stream(q, y as int); }
            let k = year_slot(stats, y);
            let st = stats[k];
            proof { g_mid = stats@; g_k = k as int; }
            stats.set(k, YearStats { dropped_count: st.dropped_count + 1, ..st });
            slot = Some(k);
        },
        Event::LossEvent { peril, .. } => {
            if *peril == Peril::WindstormAtlantic {
                proof { lemma_year_within_stream(q, y as int); }
                let k = year_slot(stats, y);
                let st = stats[k];
                proof { g_mid = stats@; g_k = k as int; }
                stats.set(k, YearStats { cat_event_count: st.cat_event_count + 1, ..st });
                slot = Some(k);
            }
        },
        Event::InsurerEntered { insurer_id, initial_capital } => {
            proof { lemma_year_within_stream(q, y as int); }
            book_put(book, insurer_id.0, *initial_capital);
            let k = year_slot(stats, y);
            let st = stats[k];
            proof { g_mid = stats@; g_k = k as int; }
            stats.set(k, YearStats { entrant_count: st.entrant_count + 1, ..st });
            slot = Some(k);
        },
        Event::InsurerExited { .. } => {
            proof { lemma_year_within_stream(q, y as int); }
            let k = year_slot(stats, y);
            let st = stats[k];
            proof { g_mid = stats@; g_k = k as int; }
            stats.set(k, YearStats { exit_count: st.exit_count + 1, ..st });
            slot = Some(k);
        },
        Event::InsurerReEntered { .. } => {
            proof { lemma_year_within_stream(q, y as int); }
            let k = year_slot(stats, y);
            let st = stats[k];
            proof { g_mid = stats@; g_k = k as int; }
            stats.set(k, YearStats { re_entry_count: st.re_entry_count + 1, ..st });
            slot = Some(k);
        },
        Event::CoverageRequested { insured_id, risk } => {
            let key = make_pair_key(y as u64, insured_id.0);
            if !seen.contains(&key) {
                proof { lemma_year_within_stream(q, y as int); new_request = true; }
                seen.insert(key);
                let k = year_slot(stats, y);
                let st = stats[k];
                proof { g_mid = stats@; g_k = k as int; }
                stats.set(k, YearStats { total_assets: st.total_assets + risk.sum_insured, ..st });
                slot = Some(k);
            }
        },
        Event::YearEnd { year } => {
            proof {
                assert(s[i as int].event is YearEnd);
            }
            let total = book_sum(book);
            let k = year_slot(stats, year.0);
            let st = stats[k];
            proof { g_mid = stats@; g_k = k as int; }
            stats.set(k, YearStats { total_capital: total, ..st });
            slot = Some(k);
        },
        _ => {},
    }
    proof {
        lemma_record_closes(initials, s, i as int, old_stats, g_mid, g_k, stats@, new_request);
    }
}


/// The warm-up length announced by the first `SimulationStart` of the stream (0 if none).
fn warmup_years(events: &[SimEvent]) -> (w: u32)
    ensures
        w == warmup_of(events@),
{
    let ghost s = events@;
    let mut i: usize = 0;
    while i < events.len()
        invariant
            i <= s.len(),
            s == events@,
            first_warmup(s.take(i as int)) is None,
        decreases s.len() - i,
    {
        proof {
            lemma_take_step(s, i as int);
        }
        match &events[i].event {
            Event::SimulationStart { warmup_years, .. } => {
                proof {
                    lemma_first_warmup_extends(s, i as int + 1);
                }
                return *warmup_years;
            },
            _ => {},
        }
        i = i + 1;
    }
    proof {
        assert(s.take(s.len() as int) =~= s);
    }
    0
}

/// Once found in a prefix, the first announced warm-up stays the stream's.
proof fn lemma_first_warmup_extends(s: Seq<SimEvent>, i: int)
    requires
        0 <= i <= s.len(),
        first_warmup(s.take(i)) is Some,
    ensures
        first_warmup(s) == first_warmup(s.take(i)),
    decreases s.len() - i,
{
    if i < s.len() {
        lemma_take_step(s, i);
        lemma_first_warmup_extends(s, i + 1);
    } else {
        assert(s.take(i) =~= s);
    }
}

/// The entries of `stats` for years after `warmup`, in increasing year order.
fn in_year_order(stats: &Vec<YearStats>, warmup: u32) -> (r: Vec<YearStats>)
    requires
        forall|a: int, b: int| 0 <= a < b < stats@.len() ==> (#[trigger] stats@[a]).year != (#[trigger] stats@[b]).year,
    ensures
        forall|a: int, b: int| 0 <= a < b < r@.len() ==> (#[trigger] r@[a]).year < (#[trigger] r@[b]).year,
        forall|a: int| 0 <= a < r@.len() ==> (#[trigger] r@[a]).year > warmup && stats@.contains(r@[a]),
        forall|j: int| 0 <= j < stats@.len() && (#[trigger] stats@[j]).year > warmup ==> r@.contains(stats@[j]),
{
    let mut r: Vec<YearStats> = Vec::new();
    // Years below `lower` have been placed.
    let mut lower: u64 = warmup as u64 + 1;
    loop
        invariant_except_break
            lower <= u32::MAX as u64 + 1,
        invariant
            lower >= warmup as u64 + 1,
            forall|a: int, b: int| 0 <= a < b < stats@.len() ==> (#[trigger] stats@[a]).year != (#[trigger] stats@[b]).year,
            forall|a: int, b: int| 0 <= a < b < r@.len() ==> (#[trigger] r@[a]).year < (#[trigger] r@[b]).year,
            forall|a: int| 0 <= a < r@.len() ==> (#[trigger] r@[a]).year > warmup && stats@.contains(r@[a]) && r@[a].year < lower,
            forall|j: int| 0 <= j < stats@.len() && (#[trigger] stats@[j]).year > warmup && stats@[j].year < lower ==> r@.contains(stats@[j]),
        ensures
            forall|j: int| 0 <= j < stats@.len() && (#[trigger] stats@[j]).year > warmup ==> r@.contains(stats@[j]),
        decreases u32::MAX as u64 + 1 - lower,
    {
        // The entry with the smallest year at or above `lower`.
        let mut best: Option<usize> = None;
        let mut j: usize = 0;
        while j < stats.len()
            invariant
                j <= stats@.len(),
                best matches Some(b) ==> b < j && stats@[b as int].year >= lower,
                forall|t: int| 0 <= t < j && (#[trigger] stats@[t]).year >= lower ==> (best matches Some(b) && stats@[b as int].year <= stats@[t].year),
            decreases stats@.len() - j,
        {
            if stats[j].year as u64 >= lower {
                match best {
                    None => {
                        best = Some(j);
                    },
                    Some(b) => {
                        if stats[j].year < stats[b].year {
                            best = Some(j);
                        }
                    },
                }
            }
            j = j + 1;
        }
        match best {
            None => {
                break;
            },
            Some(b) => {
                let st = stats[b];
                let ghost old_r = r@;
                r.push(st);
                proof {
                    assert(stats@.contains(st));
                    assert forall|a: int| 0 <= a < r@.len() implies (#[trigger] r@[a]).year > warmup && stats@.contains(r@[a]) && r@[a].year < st.year + 1 by {
                        if a < old_r.len() {
                            assert(r@[a] == old_r[a]);
                        }
                    }
                    assert forall|t: int| 0 <= t < stats@.len() && (#[trigger] stats@[t]).year > warmup && stats@[t].year < st.year + 1 implies r@.contains(stats@[t]) by {
                        if stats@[t].year < lower {
                            assert(old_r.contains(stats@[t]));
                            let a = choose|a: int| 0 <= a < old_r.len() && old_r[a] == stats@[t];
                            assert(r@[a] == stats@[t]);
                        } else {
                            assert(stats@[t].year == st.year);
                            if t != b {
                                assert(stats@[t].year != stats@[b as int].year);
                            }
                            assert(r@[old_r.len() as int] == stats@[t]);
                        }
                    }
                }
                lower = st.year as u64 + 1;
            },
        }
    }
    r
}


/// Per-year statistics of a recorded run, with the warm-up length announced by its first
/// `SimulationStart` (0 if none). One entry per year that some statistics event falls in
/// or that some `YearEnd` closes, warm-up years left out, in increasing year order. Each
/// insurer's capital starts at its entry in `initial_capitals` (a later entry for the same
/// insurer replaces an earlier one) and follows the capital reported by its claims and by
/// its entry into the market; each year's `total_capital` is the market's capital as of the
/// year's `YearEnd`.
pub fn analyse(events: &[SimEvent], initial_capitals: &Vec<(InsurerId, u64)>) -> (r: (u32, Vec<YearStats>))
    requires
        stats_in_range(initial_capitals@, events@),
    ensures
        r.0 == warmup_of(events@),
        forall|a: int, b: int| 0 <= a < b < r.1@.len() ==> (#[trigger] r.1@[a]).year < (#[trigger] r.1@[b]).year,
        forall|a: int|
            0 <= a < r.1@.len() ==> {
                &&& #[trigger] r.1@[a] == stats_of(initial_capitals@, events@, r.1@[a].year)
                &&& r.1@[a].year > r.0
                &&& touched(events@, r.1@[a].year as int)
            },
        forall|y: u32| touched(events@, y as int) && y > r.0 ==> #[trigger] lists_year(r.1@, y),
{
    let ghost s = events@;
    let ghost initials = initial_capitals@;
    let warmup = warmup_years(events);
    // Seed the capital book.
    let mut book: Vec<(u64, u64)> = Vec::new();
    let mut j: usize = 0;
    while j < initial_capitals.len()
        invariant
            j <= initials.len(),
            initials == initial_capitals@,
            book@ == initial_book(initials.take(j as int)),
        decreases initials.len() - j,
    {
        proof {
            assert(initials.take(j + 1).drop_last() =~= initials.take(j as int));
        }
        let (id, c) = initial_capitals[j];
        book_put(&mut book, id.0, c);
        j = j + 1;
    }
    proof {
        assert(initials.take(initials.len() as int) =~= initials);
        assert(s.take(0) =~= Seq::<SimEvent>::empty());
    }
    let mut stats: Vec<YearStats> = Vec::new();
    let mut seen: HashSet<u128> = HashSet::new();
    let mut i: usize = 0;
    while i < events.len()
        invariant
            i <= s.len(),
            s == events@,
            initials == initial_capitals@,
            stats_in_range(initials, s),
            tracks(initials, s.take(i as int), stats@, book@, seen@),
        decreases s.len() - i,
    {
        record_event(&mut stats, &mut book, &mut seen, events, i, Ghost(initials));
        i = i + 1;
    }
    proof {
        assert(s.take(s.len() as int) =~= s);
    }
    let ordered = in_year_order(&stats, warmup);
    proof {
        assert forall|a: int| 0 <= a < ordered@.len() implies {
            &&& #[trigger] ordered@[a] == stats_of(initials, s, ordered@[a].year)
            &&& ordered@[a].year > warmup
            &&& touched(s, ordered@[a].year as int)
        } by {
            assert(stats@.contains(ordered@[a]));
            let k = choose|k: int| 0 <= k < stats@.len() && stats@[k] == ordered@[a];
            assert(stats@[k] == stats_of(initials, s, stats@[k].year));
            assert(touched(s, stats@[k].year as int));
        }
        assert forall|y: u32| touched(s, y as int) && y > warmup implies #[trigger] lists_year(ordered@, y) by {
            assert(lists_year(stats@, y));
            let k = choose|k: int| 0 <= k < stats@.len() && (#[trigger] stats@[k]).year == y;
            assert(ordered@.contains(stats@[k]));
            let a = choose|a: int| 0 <= a < ordered@.len() && ordered@[a] == stats@[k];
            assert(ordered@[a].year == y);
        }
    }
    (warmup, ordered)
}


/// The measure `f` of the year tallies of years 1 to `hi`, added up.
pub open spec fn through_year(s: Seq<SimEvent>, hi: int, f: spec_fn(Tally) -> nat) -> nat
    decreases hi,
{
    if hi <= 0 {
        0
    } else {
        through_year(s, hi - 1, f) + f(year_tally(s, hi))
    }
}

/// A measure that adds up over tallies (any field of the tally is one).
pub open spec fn additive(f: spec_fn(Tally) -> nat) -> bool {
    &&& f(no_tally()) == 0
    &&& forall|a: Tally, b: Tally| #[trigger] f(add_tally(a, b)) == f(a) + f(b)
}

/// Adding one event's tally to the year it falls in adds its measure to the total over
/// the years that include it, and nothing to totals over years that do not.
proof fn lemma_through_year_step(s: Seq<SimEvent>, hi: int, f: spec_fn(Tally) -> nat)
    requires
        s.len() > 0,
        additive(f),
    ensures
        through_year(s, hi, f) == through_year(s.drop_last(), hi, f) + if 1 <= event_year(s.last()) <= hi {
            f(tally_of(s.last().event))
        } else {
            0
        },
    decreases hi,
{
    if hi > 0 {
        lemma_through_year_step(s, hi - 1, f);
        let t = year_tally(s.drop_last(), hi);
        assert(f(add_tally(t, tally_of(s.last().event))) == f(t) + f(tally_of(s.last().event)));
    }
}

/// Every amount and count of the stream is counted in exactly one year: added up over
/// years 1 to `hi`, where `hi` is at least the year of every event, the year tallies
/// give the stream's totals (bound premium, sum insured, claims, losses by peril, and
/// each event count alike).
pub proof fn lemma_years_account_for_stream(s: Seq<SimEvent>, hi: int, f: spec_fn(Tally) -> nat)
    requires
        additive(f),
        forall|i: int| 0 <= i < s.len() ==> event_year(#[trigger] s[i]) <= hi,
    ensures
        through_year(s, hi, f) == f(stream_tally(s)),
    decreases s.len(),
{
    if s.len() == 0 {
        lemma_through_year_empty(s, hi, f);
    } else {
        let t = s.drop_last();
        assert forall|i: int| 0 <= i < t.len() implies event_year(#[trigger] t[i]) <= hi by {
            assert(t[i] == s[i]);
        }
        lemma_years_account_for_stream(t, hi, f);
        lemma_through_year_step(s, hi, f);
        assert(event_year(s[s.len() - 1]) <= hi);
        assert(f(add_tally(stream_tally(t), tally_of(s.last().event))) == f(stream_tally(t)) + f(
            tally_of(s.last().event),
        ));
    }
}

proof fn lemma_through_year_empty(s: Seq<SimEvent>, hi: int, f: spec_fn(Tally) -> nat)
    requires
        s.len() == 0,
        additive(f),
    ensures
        through_year(s, hi, f) == 0,
    decreases hi,
{
    if hi > 0 {
        lemma_through_year_empty(s, hi - 1, f);
    }
}


// ── Years across runs ────────────────────────────────────────────────────────

/// The first entry of `run` for year `y`, if there is one.
pub open spec fn entry_for(run: Seq<YearStats>, y: u32) -> Option<YearStats>
    decreases run.len(),
{
    if run.len() == 0 {
        None
    } else if run[0].year == y {
        Some(run[0])
    } else {
        entry_for(run.drop_first(), y)
    }
}

/// The entries for year `y`, one from each run that has one, in run order.
pub open spec fn entries_for(runs: Seq<Seq<YearStats>>, y: u32) -> Seq<YearStats>
    decreases runs.len(),
{
    if runs.len() == 0 {
        Seq::empty()
    } else {
        let prev = entries_for(runs.drop_last(), y);
        match entry_for(runs.last(), y) {
            Some(e) => prev.push(e),
            None => prev,
        }
    }
}

/// The runs as sequences of entries.
pub open spec fn runs_view(runs: Seq<Vec<YearStats>>) -> Seq<Seq<YearStats>> {
    runs.map_values(|r: Vec<YearStats>| r@)
}

proof fn lemma_entry_for(run: Seq<YearStats>, y: u32, i: int)
    requires
        0 <= i <= run.len(),
        forall|j: int| 0 <= j < i ==> run[j].year != y,
        i == run.len() || run[i].year == y,
    ensures
        entry_for(run, y) == if i < run.len() {
            Some(run[i])
        } else {
            None
        },
    decreases i,
{
    if i > 0 {
        lemma_entry_for(run.drop_first(), y, i - 1);
    }
}

/// A run with no entry for a year contributes none; with no run holding the year at
/// all, there are no entries for it.
proof fn lemma_entries_absent(runs: Seq<Seq<YearStats>>, y: u32)
    requires
        forall|r: int, i: int| 0 <= r < runs.len() && 0 <= i < runs[r].len() ==> (#[trigger] runs[r][i]).year != y,
    ensures
        entries_for(runs, y).len() == 0,
    decreases runs.len(),
{
    if runs.len() > 0 {
        let t = runs.drop_last();
        assert forall|r: int, i: int| 0 <= r < t.len() && 0 <= i < t[r].len() implies (#[trigger] t[r][i]).year != y by {
            assert(t[r] == runs[r]);
        }
        lemma_entries_absent(t, y);
        let last = runs.last();
        assert(forall|j: int| 0 <= j < last.len() ==> last[j].year != y) by {
            assert forall|j: int| 0 <= j < last.len() implies last[j].year != y by {
                assert(runs[runs.len() - 1][j] == last[j]);
            }
        }
        lemma_entry_for(last, y, last.len() as int);
    }
}

/// The first entry of `run` for year `y`.
fn first_entry(run: &Vec<YearStats>, y: u32) -> (r: Option<YearStats>)
    ensures
        r == entry_for(run@, y),
{
    let mut i: usize = 0;
    while i < run.len()
        invariant
            i <= run@.len(),
            forall|j: int| 0 <= j < i ==> run@[j].year != y,
        decreases run@.len() - i,
    {
        if run[i].year == y {
            proof {
                lemma_entry_for(run@, y, i as int);
            }
            return Some(run[i]);
        }
        i = i + 1;
    }
    proof {
        lemma_entry_for(run@, y, i as int);
    }
    None
}

/// The entries for year `y`, one from each run that has one, in run order.
fn collect_entries(runs: &Vec<Vec<YearStats>>, y: u32) -> (r: Vec<YearStats>)
    ensures
        r@ == entries_for(runs_view(runs@), y),
{
    let ghost rv = runs_view(runs@);
    let mut r: Vec<YearStats> = Vec::new();
    let mut k: usize = 0;
    while k < runs.len()
        invariant
            k <= runs@.len(),
            rv == runs_view(runs@),
            r@ == entries_for(rv.take(k as int), y),
        decreases runs@.len() - k,
    {
        proof {
            assert(rv.take(k + 1).drop_last() =~= rv.take(k as int));
            assert(rv.take(k + 1).last() == runs@[k as int]@);
        }
        match first_entry(&runs[k], y) {
            Some(e) => r.push(e),
            None => {},
        }
        k = k + 1;
    }
    proof {
        assert(rv.take(runs@.len() as int) =~= rv);
    }
    r
}

/// The smallest year at or above `lower` held by any run, if any.
fn min_year_from(runs: &Vec<Vec<YearStats>>, lower: u64) -> (m: Option<u32>)
    ensures
        m matches Some(y) ==> y >= lower && exists|r: int, i: int|
            0 <= r < runs@.len() && 0 <= i < runs@[r]@.len() && (#[trigger] runs@[r]@[i]).year == y,
        m matches Some(y) ==> forall|r: int, i: int|
            0 <= r < runs@.len() && 0 <= i < runs@[r]@.len() && (#[trigger] runs@[r]@[i]).year >= lower ==> y <= runs@[r]@[i].year,
        m is None ==> forall|r: int, i: int|
            0 <= r < runs@.len() && 0 <= i < runs@[r]@.len() ==> (#[trigger] runs@[r]@[i]).year < lower,
{
    let mut best: Option<u32> = None;
    let mut k: usize = 0;
    while k < runs.len()
        invariant
            k <= runs@.len(),
            best matches Some(y) ==> y >= lower && exists|r: int, i: int|
                0 <= r < k && 0 <= i < runs@[r]@.len() && (#[trigger] runs@[r]@[i]).year == y,
            forall|r: int, i: int|
                0 <= r < k && 0 <= i < runs@[r]@.len() && (#[trigger] runs@[r]@[i]).year >= lower ==> (best matches Some(y) && y <= runs@[r]@[i].year),
        decreases runs@.len() - k,
    {
        let run = &runs[k];
        let mut i: usize = 0;
        while i < run.len()
            invariant
                k < runs@.len(),
                run@ == runs@[k as int]@,
                i <= run@.len(),
                best matches Some(y) ==> y >= lower && exists|r: int, j: int|
                    0 <= r <= k && 0 <= j < runs@[r]@.len() && (#[trigger] runs@[r]@[j]).year == y,
                forall|r: int, j: int|
                    0 <= r < k && 0 <= j < runs@[r]@.len() && (#[trigger] runs@[r]@[j]).year >= lower ==> (best matches Some(y) && y <= runs@[r]@[j].year),
                forall|j: int| 0 <= j < i && (#[trigger] run@[j]).year >= lower ==> (best matches Some(y) && y <= run@[j].year),
            decreases run@.len() - i,
        {
            let yr = run[i].year;
            if yr as u64 >= lower {
                let better = match best {
                    None => true,
                    Some(b) => yr < b,
                };
                if better {
                    best = Some(yr);
                    proof {
                        assert(runs@[k as int]@[i as int].year == yr);
                    }
                }
            }
            i = i + 1;
        }
        proof {
            assert forall|r: int, j: int|
                0 <= r < k + 1 && 0 <= j < runs@[r]@.len() && (#[trigger] runs@[r]@[j]).year >= lower implies (best matches Some(y) && y <= runs@[r]@[j].year) by {
                if r == k {
                    assert(runs@[r]@[j] == run@[j]);
                }
            }
        }
        k = k + 1;
    }
    best
}

/// Whether the grouped years `r` list year `y`.
pub open spec fn groups_year(r: Seq<(u32, Vec<YearStats>)>, y: u32) -> bool {
    exists|a: int| 0 <= a < r.len() && (#[trigger] r[a]).0 == y
}

/// For the cross-run distributions: each year held by at least two runs, in increasing
/// order, with its entries (the first entry for the year from each run that has one, in
/// run order).
pub fn runs_by_year(all_runs: &Vec<Vec<YearStats>>) -> (r: Vec<(u32, Vec<YearStats>)>)
    ensures
        forall|a: int, b: int| 0 <= a < b < r@.len() ==> (#[trigger] r@[a]).0 < (#[trigger] r@[b]).0,
        forall|a: int|
            0 <= a < r@.len() ==> (#[trigger] r@[a]).1@ == entries_for(runs_view(all_runs@), r@[a].0)
                && r@[a].1@.len() >= 2,
        forall|y: u32| #[trigger] entries_for(runs_view(all_runs@), y).len() >= 2 ==> groups_year(r@, y),
{
    let ghost rv = runs_view(all_runs@);
    let mut r: Vec<(u32, Vec<YearStats>)> = Vec::new();
    let mut lower: u64 = 0;
    loop
        invariant_except_break
            lower <= u32::MAX as u64 + 1,
        invariant
            rv == runs_view(all_runs@),
            forall|a: int, b: int| 0 <= a < b < r@.len() ==> (#[trigger] r@[a]).0 < (#[trigger] r@[b]).0,
            forall|a: int|
                0 <= a < r@.len() ==> (#[trigger] r@[a]).1@ == entries_for(rv, r@[a].0) && r@[a].1@.len() >= 2
                    && r@[a].0 < lower,
            forall|y: u32| #[trigger] entries_for(rv, y).len() >= 2 && y < lower ==> groups_year(r@, y),
        ensures
            forall|y: u32| #[trigger] entries_for(rv, y).len() >= 2 ==> groups_year(r@, y),
        decreases u32::MAX as u64 + 1 - lower,
    {
        match min_year_from(all_runs, lower) {
            None => {
                proof {
                    assert forall|y: u32| #[trigger] entries_for(rv, y).len() >= 2 implies groups_year(r@, y) by {
                        if y >= lower {
                            assert forall|q: int, i: int| 0 <= q < rv.len() && 0 <= i < rv[q].len() implies (#[trigger] rv[q][i]).year != y by {
                                assert(rv[q][i] == all_runs@[q]@[i]);
                            }
                            lemma_entries_absent(rv, y);
                        }
                    }
                }
                break;
            },
            Some(y) => {
                let entries = collect_entries(all_runs, y);
                proof {
                    // No year from `lower` up to `y` (excluded) is held by any run.
                    assert forall|z: u32| #[trigger] entries_for(rv, z).len() >= 2 && z < y + 1 implies groups_year(r@, z)
                        || z == y by {
                        if lower <= z < y {
                            assert forall|q: int, i: int| 0 <= q < rv.len() && 0 <= i < rv[q].len() implies (#[trigger] rv[q][i]).year != z by {
                                assert(rv[q][i] == all_runs@[q]@[i]);
                            }
                            lemma_entries_absent(rv, z);
                        }
                    }
                }
                if entries.len() >= 2 {
                    let ghost old_r = r@;
                    r.push((y, entries));
                    proof {
                        assert forall|z: u32| #[trigger] entries_for(rv, z).len() >= 2 && z < y + 1 implies groups_year(r@, z) by {
                            if groups_year(old_r, z) {
                                let a = choose|a: int| 0 <= a < old_r.len() && (#[trigger] old_r[a]).0 == z;
                                assert(r@[a] == old_r[a]);
                            } else {
                                assert(r@[old_r.len() as int].0 == z);
                            }
                        }
                        assert forall|a: int| 0 <= a < r@.len() implies (#[trigger] r@[a]).1@ == entries_for(rv, r@[a].0)
                            && r@[a].1@.len() >= 2 && r@[a].0 < y + 1 by {
                            if a < old_r.len() {
                                assert(r@[a] == old_r[a]);
                            }
                        }
                    }
                }
                lower = y as u64 + 1;
            },
        }
    }
    r
}

} // verus!
