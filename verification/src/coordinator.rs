//! The simulation's dispatcher: owns the clock, the broker, the market and the insurers'
//! books, and for each dispatched event makes the routing decisions (which agent handles
//! it, what it schedules, what goes back into the log). The pricing, the insureds'
//! acceptance, the catastrophe damage draws and the relationship scores are floating
//! point: the driving loop computes them and hands the results in as plain values.
use vstd::prelude::*;

use crate::broker::{declined, presented, routed, Broker, BrokerView};
use crate::calendar::{first_year_start, initial_request_offsets, next_year_start, quote_response, renewal_day,
    year_end_event, INITIAL_REQUEST_WINDOW, QUOTING_CHAIN_DAYS};
use crate::events::{Event, EventLog, Peril, Risk, RiskView, SimEvent};
use crate::insurer::{booked, claim_paid, floored, payable, profit_paid, quote_answer, released, writability_checked,
    year_closed, Insurer, InsurerView};
use crate::market::{accepted, activated, asset_damage_events, damage_events, damaged, expired, registered, BoundPolicy,
    Market, MarketView};
use crate::schedule::{day_ordered, enqueued, Scheduler, SchedulerView};
use crate::types::{year_of_day, Day, InsuredId, InsurerId, PolicyId, SubmissionId, Year,
    DAYS_PER_YEAR};

verus! {

broadcast use vstd::seq_lib::group_to_multiset_ensures;

/// The dispatcher's abstract state.
pub struct CoordinatorView {
    pub sched: SchedulerView,
    pub broker: BrokerView,
    pub market: MarketView,
    /// The insurers' books, in the order they joined the market.
    pub books: Seq<InsurerView>,
    /// The insureds and the risk each one asks cover for, in id order.
    pub clients: Seq<(InsuredId, RiskView)>,
    /// The (insured, year) pairs whose attritional losses have been drawn.
    pub drawn: Seq<(u64, u32)>,
    /// Gross premium bound so far this year.
    pub premium_written: u64,
    /// Claims settled so far this year.
    pub claims_settled: u64,
    /// Submissions dropped so far this year.
    pub dropped: u32,
}

/// The dispatcher: clock, broker, market and books.
pub struct Coordinator {
    sched: Scheduler,
    broker: Broker,
    market: Market,
    books: Vec<Insurer>,
    clients: Vec<(InsuredId, Risk)>,
    drawn: Vec<(u64, u32)>,
    premium_written: u64,
    claims_settled: u64,
    dropped: u32,
}

/// The `(day, event)` pairs of `r` as log entries.
pub open spec fn as_entries(r: Seq<(Day, Event)>) -> Seq<SimEvent> {
    r.map_values(|e: (Day, Event)| SimEvent { day: e.0, event: e.1 })
}

/// Every pair of `r` falls on `now` or later.
pub open spec fn not_before(r: Seq<(Day, Event)>, now: u64) -> bool {
    forall|i: int| 0 <= i < r.len() ==> (#[trigger] r[i]).0.0 >= now
}

/// Scheduling `r` added exactly its entries to the queue and touched nothing else of
/// the clock; the run stays causal exactly when none of them lies before the clock.
pub open spec fn scheduled(old: SchedulerView, new: SchedulerView, r: Seq<(Day, Event)>) -> bool {
    &&& new.queue.to_multiset() == old.queue.to_multiset().add(as_entries(r).to_multiset())
    &&& new.log == old.log
    &&& new.now == old.now
    &&& new.max_day == old.max_day
    &&& new.max_events == old.max_events
    &&& new.causal == (old.causal && not_before(r, old.now))
}

/// Every logged event lies on or before the clock's horizon, if it has one.
pub open spec fn within_horizon(s: SchedulerView) -> bool {
    s.max_day matches Some(h) ==> forall|i: int| 0 <= i < s.log.len() ==> (#[trigger] s.log[i]).day.0 <= h.0
}

/// Position `i` holds the first book of insurer `id`.
pub open spec fn first_book_at(books: Seq<InsurerView>, id: InsurerId, i: int) -> bool {
    &&& 0 <= i < books.len()
    &&& books[i].id == id
    &&& forall|j: int| 0 <= j < i ==> (#[trigger] books[j]).id != id
}

/// The position of the first book of insurer `id`, if it has one.
pub open spec fn book_of(books: Seq<InsurerView>, id: InsurerId) -> Option<int> {
    if exists|i: int| first_book_at(books, id, i) {
        Some(choose|i: int| first_book_at(books, id, i))
    } else {
        None
    }
}

/// Position `i` holds the first entry of client `id`.
pub open spec fn first_client_at(clients: Seq<(InsuredId, RiskView)>, id: InsuredId, i: int) -> bool {
    &&& 0 <= i < clients.len()
    &&& clients[i].0 == id
    &&& forall|j: int| 0 <= j < i ==> (#[trigger] clients[j]).0 != id
}

/// The risk insured `id` asks cover for, if it is a client.
pub open spec fn client_risk(clients: Seq<(InsuredId, RiskView)>, id: InsuredId) -> Option<RiskView> {
    if exists|i: int| first_client_at(clients, id, i) {
        Some(clients[choose|i: int| first_client_at(clients, id, i)].1)
    } else {
        None
    }
}

/// `r` is the renewal request of insured `id` for `risk`, dispatched on `now`: a new
/// `CoverageRequested` timed so that the renewal binds the day the current policy expires.
pub open spec fn renewal_request(r: Seq<(Day, Event)>, now: u64, id: InsuredId, risk: RiskView) -> bool {
    &&& r.len() == 1
    &&& r[0].0 == Day((now + 361 - QUOTING_CHAIN_DAYS) as u64)
    &&& r[0].1 matches Event::CoverageRequested { insured_id: i, risk: q } && i == id && q@ == risk
}

/// The policy a `PolicyBound` for `pid` activates: the pending one, or one already bound.
pub open spec fn bound_policy(m: MarketView, pid: PolicyId) -> Option<BoundPolicy> {
    if m.pending.contains_key(pid.0) {
        Some(m.pending[pid.0])
    } else if m.policies.contains_key(pid.0) {
        Some(m.policies[pid.0])
    } else {
        None
    }
}

/// `log` with a last `PolicyBound` entry reporting `total` as the insurer's windstorm
/// aggregate after the binding (any other log is left as it is).
pub open spec fn with_cat_exposure(log: Seq<SimEvent>, total: u64) -> Seq<SimEvent> {
    if log.len() > 0 && log.last().event is PolicyBound {
        match log.last().event {
            Event::PolicyBound { policy_id, submission_id, insured_id, insurer_id, premium, sum_insured, .. } => {
                log.update(
                    log.len() - 1,
                    SimEvent {
                        day: log.last().day,
                        event: Event::PolicyBound {
                            policy_id,
                            submission_id,
                            insured_id,
                            insurer_id,
                            premium,
                            sum_insured,
                            total_cat_exposure: total,
                        },
                    },
                )
            },
            _ => log,
        }
    } else {
        log
    }
}

/// `log` with a last `ClaimSettled` entry reporting `capital` as what the insurer has left
/// after paying it (any other log is left as it is).
pub open spec fn with_remaining_capital(log: Seq<SimEvent>, capital: u64) -> Seq<SimEvent> {
    if log.len() > 0 && log.last().event is ClaimSettled {
        match log.last().event {
            Event::ClaimSettled { policy_id, insurer_id, amount, peril, .. } => {
                log.update(
                    log.len() - 1,
                    SimEvent {
                        day: log.last().day,
                        event: Event::ClaimSettled { policy_id, insurer_id, amount, peril, remaining_capital: capital },
                    },
                )
            },
            _ => log,
        }
    } else {
        log
    }
}

proof fn lemma_first_client_unique(clients: Seq<(InsuredId, RiskView)>, id: InsuredId, i: int, k: int)
    requires
        first_client_at(clients, id, i),
        first_client_at(clients, id, k),
    ensures
        i == k,
{
    if i < k {
        assert(clients[i].0 != id);
    } else if k < i {
        assert(clients[k].0 != id);
    }
}

/// Offset, in days, of the first-year request of the `i`-th of `n` clients.
pub open spec fn request_offset(i: int, n: int) -> u64 {
    if n > 1 {
        (i * INITIAL_REQUEST_WINDOW / n) as u64
    } else {
        0
    }
}

/// `e` is the `i`-th first-year request: client `i` of `clients` asking cover for its risk.
pub open spec fn request_at(e: (Day, Event), now: u64, i: int, clients: Seq<(InsuredId, RiskView)>) -> bool {
    &&& e.0 == Day((now + request_offset(i, clients.len() as int)) as u64)
    &&& e.1 matches Event::CoverageRequested { insured_id, risk } && insured_id == clients[i].0 && risk@ == clients[i].1
}

/// `r` holds the first year's requests of `clients`, in client order.
pub open spec fn initial_requests(r: Seq<(Day, Event)>, now: u64, clients: Seq<(InsuredId, RiskView)>) -> bool {
    &&& r.len() == clients.len()
    &&& forall|i: int| 0 <= i < r.len() ==> request_at(#[trigger] r[i], now, i, clients)
}

proof fn lemma_request_offset_in_window(i: int, n: int)
    requires
        0 <= i < n,
    ensures
        request_offset(i, n) < INITIAL_REQUEST_WINDOW,
{
    if n > 1 {
        assert(i * INITIAL_REQUEST_WINDOW < n * INITIAL_REQUEST_WINDOW) by (nonlinear_arith)
            requires
                i < n,
        ;
        assert((i * INITIAL_REQUEST_WINDOW) / n < INITIAL_REQUEST_WINDOW) by (nonlinear_arith)
            requires
                0 <= i < n,
                n > 1,
        ;
    }
}

/// Every damage of a catastrophe falls on its day.
proof fn lemma_damage_events_on(day: Day, peril: Peril, losses: Seq<(InsuredId, u64)>)
    ensures
        not_before(damage_events(day, peril, losses), day.0),
{
}

/// Scheduling `r` and then `q` schedules `r + q`.
proof fn lemma_scheduled_then(a: SchedulerView, b: SchedulerView, c: SchedulerView, r: Seq<(Day, Event)>, q: Seq<(Day, Event)>)
    requires
        scheduled(a, b, r),
        scheduled(b, c, q),
    ensures
        scheduled(a, c, r + q),
{
    broadcast use vstd::multiset::group_multiset_axioms;
    assert(as_entries(r + q) =~= as_entries(r) + as_entries(q));
    vstd::seq_lib::lemma_multiset_commutative(as_entries(r), as_entries(q));
    assert(c.queue.to_multiset() =~= a.queue.to_multiset().add(as_entries(r + q).to_multiset()));
    if not_before(r, a.now) && not_before(q, a.now) {
        assert forall|i: int| 0 <= i < (r + q).len() implies (#[trigger] (r + q)[i]).0.0 >= a.now by {
            if i < r.len() {
                assert((r + q)[i] == r[i]);
            } else {
                assert((r + q)[i] == q[i - r.len()]);
            }
        }
    }
    if not_before(r + q, a.now) {
        assert forall|i: int| 0 <= i < r.len() implies (#[trigger] r[i]).0.0 >= a.now by {
            assert((r + q)[i] == r[i]);
        }
        assert forall|i: int| 0 <= i < q.len() implies (#[trigger] q[i]).0.0 >= a.now by {
            assert((r + q)[i + r.len()] == q[i]);
        }
    }
}

proof fn lemma_first_book_unique(books: Seq<InsurerView>, id: InsurerId, i: int, k: int)
    requires
        first_book_at(books, id, i),
        first_book_at(books, id, k),
    ensures
        i == k,
{
    if i < k {
        assert(books[i].id != id);
    } else if k < i {
        assert(books[k].id != id);
    }
}

impl View for Coordinator {
    type V = CoordinatorView;

    closed spec fn view(&self) -> CoordinatorView {
        CoordinatorView {
            sched: self.sched@,
            broker: self.broker@,
            market: self.market@,
            books: self.books@.map_values(|b: Insurer| b@),
            clients: self.clients@.map_values(|c: (InsuredId, Risk)| (c.0, c.1@)),
            drawn: self.drawn@,
            premium_written: self.premium_written,
            claims_settled: self.claims_settled,
            dropped: self.dropped,
        }
    }
}

impl Coordinator {
    /// The dispatcher's invariant: the clock, the broker, the market and every book keep
    /// their own, and nothing logged lies beyond the run's horizon.
    pub closed spec fn wf(&self) -> bool {
        &&& self.sched.wf()
        &&& within_horizon(self.sched@)
        &&& self.broker.wf()
        &&& self.market.wf()
        &&& forall|i: int| 0 <= i < self.books@.len() ==> (#[trigger] self.books@[i]).wf()
    }

    /// A market of the given insurers (id and initial capital, in order) and insureds,
    /// routing each request to `quotes_per_submission` insurers, that runs to `horizon`.
    pub fn new(
        insurers: Vec<(InsurerId, i64)>,
        clients: Vec<(InsuredId, Risk)>,
        quotes_per_submission: usize,
        horizon: Day,
    ) -> (c: Coordinator)
        ensures
            c.wf(),
            c@.sched.queue.len() == 0,
            c@.sched.log.len() == 0,
            c@.sched.max_day == Some(horizon),
            c@.sched.max_events is None,
            c@.sched.now == 0,
            c@.sched.causal,
            c@.broker.insurer_ids == insurers@.map_values(|e: (InsurerId, i64)| e.0),
            c@.broker.quotes_per_submission == quotes_per_submission,
            c@.broker.next_insurer_idx == 0,
            c@.broker.next_submission_id == 0,
            c@.broker.pending.is_empty(),
            c@.broker.decline_counts == Seq::new(insurers@.len(), |i: int| 0u64),
            c@.market.next_policy_id == 0,
            c@.market.pending.is_empty(),
            c@.market.policies.is_empty(),
            c@.market.active.is_empty(),
            c@.market.registry.len() == 0,
            c@.books.len() == insurers@.len(),
            forall|i: int| 0 <= i < insurers@.len() ==> {
                let b = #[trigger] c@.books[i];
                &&& b.id == insurers@[i].0
                &&& b.capital == insurers@[i].1
                &&& b.initial_capital == insurers@[i].1
                &&& !b.insolvent
                &&& b.ytd.is_zero()
                &&& b.cat_aggregate == 0
                &&& b.cat_shares.is_empty()
            },
            c@.clients == clients@.map_values(|e: (InsuredId, Risk)| (e.0, e.1@)),
            c@.drawn.len() == 0,
            c@.premium_written == 0,
            c@.claims_settled == 0,
            c@.dropped == 0,
    {
        let mut books: Vec<Insurer> = Vec::new();
        let mut ids: Vec<InsurerId> = Vec::new();
        let mut i: usize = 0;
        while i < insurers.len()
            invariant
                i <= insurers@.len(),
                books@.len() == i,
                ids@ == insurers@.take(i as int).map_values(|e: (InsurerId, i64)| e.0),
                forall|j: int| 0 <= j < i ==> {
                    let b = #[trigger] books@[j];
                    &&& b.wf()
                    &&& b@.id == insurers@[j].0
                    &&& b@.capital == insurers@[j].1
                    &&& b@.initial_capital == insurers@[j].1
                    &&& !b@.insolvent
                    &&& b@.ytd.is_zero()
                    &&& b@.cat_aggregate == 0
                    &&& b@.cat_shares.is_empty()
                },
            decreases insurers@.len() - i,
        {
            let (id, capital) = insurers[i];
            books.push(Insurer::new(id, capital));
            ids.push(id);
            proof {
                assert(insurers@.take(i + 1) == insurers@.take(i as int).push(insurers@[i as int]));
            }
            i = i + 1;
        }
        proof {
            assert(insurers@.take(insurers@.len() as int) == insurers@);
        }
        let c = Coordinator {
            sched: Scheduler::new().until(horizon),
            broker: Broker::new(ids, quotes_per_submission),
            market: Market::new(),
            books,
            clients,
            drawn: Vec::new(),
            premium_written: 0,
            claims_settled: 0,
            dropped: 0,
        };
        proof {
            assert forall|i: int| 0 <= i < insurers@.len() implies {
                let b = #[trigger] c@.books[i];
                &&& b.id == insurers@[i].0
                &&& b.capital == insurers@[i].1
                &&& b.initial_capital == insurers@[i].1
                &&& !b.insolvent
                &&& b.ytd.is_zero()
                &&& b.cat_aggregate == 0
                &&& b.cat_shares.is_empty()
            } by {
                assert(c@.books[i] == c.books@[i]@);
            }
        }
        c
    }

    /// Stop after `n` events.
    pub fn with_max_events(self, n: usize) -> (c: Coordinator)
        requires
            self.wf(),
        ensures
            c.wf(),
            c@ == (CoordinatorView { sched: SchedulerView { max_events: Some(n), ..self@.sched }, ..self@ }),
    {
        Coordinator { sched: self.sched.with_max_events(n), ..self }
    }

    /// The log of dispatched events.
    pub fn log(&self) -> (r: &EventLog)
        ensures
            r@ == self@.sched.log,
    {
        self.sched.log()
    }

    /// The broker.
    pub fn broker(&self) -> (r: &Broker)
        ensures
            r@ == self@.broker,
    {
        &self.broker
    }

    /// The market.
    pub fn market(&self) -> (r: &Market)
        ensures
            r@ == self@.market,
    {
        &self.market
    }

    /// Gross premium bound, claims settled and submissions dropped so far this year.
    pub fn year_figures(&self) -> (r: (u64, u64, u32))
        ensures
            r == (self@.premium_written, self@.claims_settled, self@.dropped),
    {
        (self.premium_written, self.claims_settled, self.dropped)
    }

    /// The position of the first book of insurer `id`.
    fn find_book(&self, id: InsurerId) -> (r: Option<usize>)
        ensures
            r matches Some(i) ==> book_of(self@.books, id) == Some(i as int),
            r is None ==> book_of(self@.books, id) is None,
    {
        let mut i: usize = 0;
        while i < self.books.len()
            invariant
                i <= self.books@.len(),
                forall|j: int| 0 <= j < i ==> (#[trigger] self@.books[j]).id != id,
            decreases self.books@.len() - i,
        {
            if self.books[i].id() == id {
                proof {
                    assert(first_book_at(self@.books, id, i as int));
                    let k = choose|k: int| first_book_at(self@.books, id, k);
                    lemma_first_book_unique(self@.books, id, i as int, k);
                }
                return Some(i);
            }
            i = i + 1;
        }
        proof {
            assert forall|k: int| !first_book_at(self@.books, id, k) by {
                if 0 <= k < self@.books.len() {
                    assert(self@.books[k].id != id);
                }
            }
        }
        None
    }

    /// The book of insurer `id`, if it has one.
    pub fn book(&self, id: InsurerId) -> (r: Option<&Insurer>)
        ensures
            book_of(self@.books, id) matches Some(i) ==> r matches Some(b) && b@ == self@.books[i],
            book_of(self@.books, id) is None ==> r is None,
    {
        match self.find_book(id) {
            Some(i) => Some(&self.books[i]),
            None => None,
        }
    }

    /// Schedule an event worked out by the driving loop (a loss drawn for the year, a
    /// catastrophe, an answer the loop computed).
    pub fn schedule(&mut self, day: Day, event: Event)
        requires
            old(self).wf(),
        ensures
            final(self).wf(),
            scheduled(old(self)@.sched, final(self)@.sched, seq![(day, event)]),
            final(self)@ == (CoordinatorView { sched: final(self)@.sched, ..old(self)@ }),
    {
        let mut v: Vec<(Day, Event)> = Vec::new();
        v.push((day, event));
        self.schedule_all(v);
    }

    /// Bootstrap the run: `SimulationStart` on day 0, with the warm-up and analysis lengths.
    pub fn start(&mut self, warmup_years: u32, analysis_years: u32)
        requires
            old(self).wf(),
        ensures
            final(self).wf(),
            enqueued(
                old(self)@.sched.queue,
                final(self)@.sched.queue,
                SimEvent {
                    day: Day(0),
                    event: Event::SimulationStart { year_start: Year(1), warmup_years, analysis_years },
                },
            ),
            final(self)@.sched.log == old(self)@.sched.log,
            final(self)@.sched.now == old(self)@.sched.now,
            final(self)@.sched.causal == (old(self)@.sched.causal && old(self)@.sched.now == 0),
            final(self)@ == (CoordinatorView { sched: final(self)@.sched, ..old(self)@ }),
    {
        self.sched.start(warmup_years, analysis_years);
    }

    /// Dispatch the next event, if the run has not stopped (see `Scheduler::advance`); the
    /// caller then hands it to the handler for its kind.
    pub fn advance(&mut self) -> (fired: bool)
        requires
            old(self).wf(),
        ensures
            final(self).wf(),
            fired == {
                &&& !(old(self)@.sched.max_events matches Some(m) && old(self)@.sched.log.len() >= m)
                &&& old(self)@.sched.queue.len() > 0
                &&& !(old(self)@.sched.max_day matches Some(h) && old(self)@.sched.queue.last().day.0 > h.0)
            },
            fired ==> final(self)@.sched == (SchedulerView {
                queue: old(self)@.sched.queue.drop_last(),
                log: old(self)@.sched.log.push(old(self)@.sched.queue.last()),
                now: old(self)@.sched.queue.last().day.0,
                ..old(self)@.sched
            }),
            !fired ==> final(self)@.sched == old(self)@.sched,
            final(self)@ == (CoordinatorView { sched: final(self)@.sched, ..old(self)@ }),
    {
        self.sched.advance()
    }

    /// `SimulationStart`: open the first year on its first day.
    pub fn on_simulation_start(&mut self, year_start: Year)
        requires
            old(self).wf(),
            year_start.0 >= 1,
        ensures
            final(self).wf(),
            scheduled(
                old(self)@.sched,
                final(self)@.sched,
                seq![(Day(((year_start.0 - 1) * DAYS_PER_YEAR) as u64), Event::YearStart { year: year_start })],
            ),
            final(self)@ == (CoordinatorView { sched: final(self)@.sched, ..old(self)@ }),
    {
        let (d, e) = first_year_start(year_start);
        self.schedule(d, e);
    }

    /// Whether the losses of `key` (insured, year) have been drawn.
    fn has_drawn(&self, key: (u64, u32)) -> (b: bool)
        ensures
            b == self@.drawn.contains(key),
    {
        let mut i: usize = 0;
        while i < self.drawn.len()
            invariant
                i <= self.drawn@.len(),
                forall|j: int| 0 <= j < i ==> self.drawn@[j] != key,
            decreases self.drawn@.len() - i,
        {
            if self.drawn[i].0 == key.0 && self.drawn[i].1 == key.1 {
                proof {
                    assert(self.drawn@[i as int] == key);
                }
                return true;
            }
            i = i + 1;
        }
        false
    }

    /// `CoverageRequested`, first half: register the insured with the market for
    /// catastrophe routing, and say whether its attritional losses for the current year
    /// still have to be drawn (only the first request of a year draws them).
    pub fn admit_request(&mut self, insured_id: InsuredId, risk: &Risk) -> (draw: bool)
        requires
            old(self).wf(),
            old(self)@.sched.now / DAYS_PER_YEAR < u32::MAX,
        ensures
            final(self).wf(),
            ({
                let key = (insured_id.0, year_of_day(old(self)@.sched.now) as u32);
                &&& draw == !old(self)@.drawn.contains(key)
                &&& final(self)@.drawn == if draw { old(self)@.drawn.push(key) } else { old(self)@.drawn }
            }),
            registered(old(self)@.market, final(self)@.market, insured_id, risk.territory@, risk.sum_insured),
            final(self)@ == (CoordinatorView { market: final(self)@.market, drawn: final(self)@.drawn, ..old(self)@ }),
    {
        self.market.register_insured(insured_id, risk.territory.as_str(), risk.sum_insured);
        let year = self.sched.now().year();
        let key = (insured_id.0, year.0);
        if self.has_drawn(key) {
            return false;
        }
        self.drawn.push(key);
        true
    }

    /// `CoverageRequested`, second half: the broker routes the request (see
    /// `Broker::on_coverage_requested`), with `standing` the pool's ranks.
    pub fn route_request(&mut self, insured_id: InsuredId, risk: Risk, standing: &Vec<u64>)
        requires
            old(self).wf(),
            standing@.len() == old(self)@.broker.insurer_ids.len(),
            old(self)@.broker.next_insurer_idx < u64::MAX,
            old(self)@.broker.next_submission_id < u64::MAX,
            old(self)@.sched.now < u64::MAX,
        ensures
            final(self).wf(),
            exists|r: Seq<(Day, Event)>|
                #[trigger] routed(
                    old(self)@.broker,
                    final(self)@.broker,
                    Day(old(self)@.sched.now),
                    insured_id,
                    risk,
                    standing@,
                    r,
                ) && scheduled(old(self)@.sched, final(self)@.sched, r),
            final(self)@.sched.causal == old(self)@.sched.causal,
            final(self)@ == (CoordinatorView { sched: final(self)@.sched, broker: final(self)@.broker, ..old(self)@ }),
    {
        let day = self.sched.now();
        let r = self.broker.on_coverage_requested(day, insured_id, risk, standing);
        let ghost rs = r@;
        self.schedule_all(r);
        proof {
            assert(not_before(rs, day.0));
        }
    }

    /// `LeadQuoteRequested`: the lead's book answers with the limits and prices its pricing
    /// worked out (see `Insurer::on_lead_quote_requested`). An insurer without a book
    /// answers nothing.
    pub fn quote(
        &mut self,
        submission_id: SubmissionId,
        insured_id: InsuredId,
        insurer_id: InsurerId,
        risk: &Risk,
        line_limit: Option<u64>,
        cat_limit: Option<u64>,
        atp: u64,
        premium: u64,
    )
        requires
            old(self).wf(),
            book_of(old(self)@.books, insurer_id) matches Some(i) ==> (cat_limit is Some
                && risk.perils_covered@.contains(Peril::WindstormAtlantic) ==> old(self)@.books[i].cat_aggregate
                + risk.sum_insured <= u64::MAX),
        ensures
            final(self).wf(),
            book_of(old(self)@.books, insurer_id) is None ==> final(self)@ == old(self)@,
            book_of(old(self)@.books, insurer_id) matches Some(i) ==> scheduled(
                old(self)@.sched,
                final(self)@.sched,
                seq![
                    (
                        Day(old(self)@.sched.now),
                        quote_answer(
                            old(self)@.books[i],
                            submission_id,
                            insured_id,
                            risk@,
                            line_limit,
                            cat_limit,
                            atp,
                            premium,
                        ),
                    ),
                ],
            ),
            final(self)@.sched.causal == old(self)@.sched.causal,
            final(self)@ == (CoordinatorView { sched: final(self)@.sched, ..old(self)@ }),
    {
        match self.find_book(insurer_id) {
            None => {},
            Some(i) => {
                let day = self.sched.now();
                let r = self.books[i].on_lead_quote_requested(
                    day,
                    submission_id,
                    insured_id,
                    risk,
                    line_limit,
                    cat_limit,
                    atp,
                    premium,
                );
                proof {
                    assert(r@ =~= seq![(day, r@[0].1)]);
                    assert(self@.books[i as int] == self.books@[i as int]@);
                }
                self.schedule_all(r);
            },
        }
    }

    /// `LeadQuoteDeclined`: the broker moves to the next candidate or drops the submission
    /// (see `Broker::on_lead_quote_declined`).
    pub fn decline(&mut self, submission_id: SubmissionId, insurer_id: InsurerId)
        requires
            old(self).wf(),
        ensures
            final(self).wf(),
            exists|r: Seq<(Day, Event)>|
                #[trigger] declined(
                    old(self)@.broker,
                    final(self)@.broker,
                    Day(old(self)@.sched.now),
                    submission_id,
                    insurer_id,
                    r,
                ) && scheduled(old(self)@.sched, final(self)@.sched, r),
            final(self)@.sched.causal == old(self)@.sched.causal,
            final(self)@ == (CoordinatorView { sched: final(self)@.sched, broker: final(self)@.broker, ..old(self)@ }),
    {
        let day = self.sched.now();
        let ghost b0 = self.broker@;
        let r = self.broker.on_lead_quote_declined(day, submission_id, insurer_id);
        let ghost rs = r@;
        self.schedule_all(r);
        proof {
            assert(not_before(rs, day.0));
            assert(day == Day(old(self)@.sched.now));
            assert(declined(old(self)@.broker, self@.broker, Day(old(self)@.sched.now), submission_id, insurer_id, rs));
            assert(scheduled(old(self)@.sched, self@.sched, rs));
        }
    }

    /// `LeadQuoteIssued`: the broker presents the quote to the insured the next day (see
    /// `Broker::on_lead_quote_issued`).
    pub fn issue(&mut self, submission_id: SubmissionId, insured_id: InsuredId, insurer_id: InsurerId, premium: u64)
        requires
            old(self).wf(),
            old(self)@.sched.now < u64::MAX,
        ensures
            final(self).wf(),
            exists|r: Seq<(Day, Event)>|
                #[trigger] presented(
                    old(self)@.broker,
                    final(self)@.broker,
                    Day(old(self)@.sched.now),
                    submission_id,
                    insurer_id,
                    premium,
                    r,
                ) && scheduled(old(self)@.sched, final(self)@.sched, r),
            final(self)@.sched.causal == old(self)@.sched.causal,
            final(self)@ == (CoordinatorView { sched: final(self)@.sched, broker: final(self)@.broker, ..old(self)@ }),
    {
        let day = self.sched.now();
        let ghost b0 = self.broker@;
        let r = self.broker.on_lead_quote_issued(day, submission_id, insured_id, insurer_id, premium);
        let ghost rs = r@;
        self.schedule_all(r);
        proof {
            assert(not_before(rs, day.0));
            assert(day == Day(old(self)@.sched.now));
            assert(presented(old(self)@.broker, self@.broker, Day(old(self)@.sched.now), submission_id, insurer_id, premium, rs));
            assert(scheduled(old(self)@.sched, self@.sched, rs));
        }
    }

    /// `QuotePresented`: the insured's answer, the same day: acceptance when the quote was
    /// `acceptable` to it, rejection otherwise.
    pub fn answer(
        &mut self,
        submission_id: SubmissionId,
        insured_id: InsuredId,
        insurer_id: InsurerId,
        premium: u64,
        acceptable: bool,
    )
        requires
            old(self).wf(),
        ensures
            final(self).wf(),
            scheduled(
                old(self)@.sched,
                final(self)@.sched,
                seq![
                    (
                        Day(old(self)@.sched.now),
                        if acceptable {
                            Event::QuoteAccepted { submission_id, insured_id, insurer_id, premium }
                        } else {
                            Event::QuoteRejected { submission_id, insured_id }
                        },
                    ),
                ],
            ),
            final(self)@.sched.causal == old(self)@.sched.causal,
            final(self)@ == (CoordinatorView { sched: final(self)@.sched, ..old(self)@ }),
    {
        let day = self.sched.now();
        let r = quote_response(day, submission_id, insured_id, insurer_id, premium, acceptable);
        self.schedule_all(r);
    }

    /// The position of the first entry of client `id`.
    fn find_client(&self, id: InsuredId) -> (r: Option<usize>)
        ensures
            r matches Some(i) ==> first_client_at(self@.clients, id, i as int)
                && client_risk(self@.clients, id) == Some(self@.clients[i as int].1),
            r is None ==> client_risk(self@.clients, id) is None,
    {
        let mut i: usize = 0;
        while i < self.clients.len()
            invariant
                i <= self.clients@.len(),
                forall|j: int| 0 <= j < i ==> (#[trigger] self@.clients[j]).0 != id,
            decreases self.clients@.len() - i,
        {
            if self.clients[i].0 == id {
                proof {
                    assert(first_client_at(self@.clients, id, i as int));
                    let k = choose|k: int| first_client_at(self@.clients, id, k);
                    lemma_first_client_unique(self@.clients, id, i as int, k);
                }
                return Some(i);
            }
            i = i + 1;
        }
        proof {
            assert forall|k: int| !first_client_at(self@.clients, id, k) by {
                if 0 <= k < self@.clients.len() {
                    assert(self@.clients[k].0 != id);
                }
            }
        }
        None
    }

    /// Ask again for cover for client `insured_id` (see `renewal_request`); nothing for an
    /// insured that is not a client.
    fn schedule_renewal(&mut self, insured_id: InsuredId)
        requires
            old(self).wf(),
            old(self)@.sched.now + 361 <= u64::MAX,
        ensures
            final(self).wf(),
            client_risk(old(self)@.clients, insured_id) is None ==> final(self)@ == old(self)@,
            client_risk(old(self)@.clients, insured_id) matches Some(rv) ==> exists|q: Seq<(Day, Event)>|
                #[trigger] renewal_request(q, old(self)@.sched.now, insured_id, rv) && scheduled(
                    old(self)@.sched,
                    final(self)@.sched,
                    q,
                ),
            final(self)@.sched.causal == old(self)@.sched.causal,
            final(self)@ == (CoordinatorView { sched: final(self)@.sched, ..old(self)@ }),
    {
        match self.find_client(insured_id) {
            None => {},
            Some(i) => {
                let day = renewal_day(self.sched.now());
                let risk = self.clients[i].1.clone();
                proof {
                    assert(self@.clients[i as int].1 == self.clients@[i as int].1@);
                }
                let ghost q = seq![(day, Event::CoverageRequested { insured_id, risk })];
                self.schedule(day, Event::CoverageRequested { insured_id, risk });
                proof {
                    assert(day == Day((old(self)@.sched.now + 361 - QUOTING_CHAIN_DAYS) as u64));
                    assert(old(self)@.clients == self@.clients);
                    assert(client_risk(old(self)@.clients, insured_id) == Some(old(self)@.clients[i as int].1));
                    assert(renewal_request(q, old(self)@.sched.now, insured_id, old(self)@.clients[i as int].1));
                    assert(not_before(q, old(self)@.sched.now));
                    assert(scheduled(old(self)@.sched, self@.sched, q));
                    assert(renewal_request(q, old(self)@.sched.now, insured_id, client_risk(old(self)@.clients, insured_id)->0));
                }
            },
        }
    }

    /// `QuoteAccepted`: the market opens the policy (see `Market::on_quote_accepted`, with
    /// the client's risk and the current year), and the insured will ask again for cover in
    /// time for the renewal. An insured that is not a client changes nothing.
    pub fn accept(&mut self, submission_id: SubmissionId, insured_id: InsuredId, insurer_id: InsurerId, premium: u64)
        requires
            old(self).wf(),
            old(self)@.sched.now + 361 <= u64::MAX,
            old(self)@.sched.now / DAYS_PER_YEAR < u32::MAX,
            old(self)@.market.next_policy_id < u64::MAX,
        ensures
            final(self).wf(),
            client_risk(old(self)@.clients, insured_id) is None ==> final(self)@ == old(self)@,
            client_risk(old(self)@.clients, insured_id) matches Some(rv) ==> exists|
                risk: Risk,
                r: Seq<(Day, Event)>,
                q: Seq<(Day, Event)>,
            |
                #![trigger accepted(old(self)@.market, final(self)@.market, Day(old(self)@.sched.now), submission_id, insured_id, insurer_id, premium, risk, Year(year_of_day(old(self)@.sched.now) as u32), r), renewal_request(q, old(self)@.sched.now, insured_id, rv)]
                risk@ == rv && accepted(
                    old(self)@.market,
                    final(self)@.market,
                    Day(old(self)@.sched.now),
                    submission_id,
                    insured_id,
                    insurer_id,
                    premium,
                    risk,
                    Year(year_of_day(old(self)@.sched.now) as u32),
                    r,
                ) && renewal_request(q, old(self)@.sched.now, insured_id, rv) && scheduled(
                    old(self)@.sched,
                    final(self)@.sched,
                    r + q,
                ),
            final(self)@.sched.causal == old(self)@.sched.causal,
            final(self)@ == (CoordinatorView { sched: final(self)@.sched, market: final(self)@.market, ..old(self)@ }),
    {
        match self.find_client(insured_id) {
            None => {},
            Some(i) => {
                let day = self.sched.now();
                let year = day.year();
                let risk = self.clients[i].1.clone();
                proof {
                    assert(self@.clients[i as int].1 == self.clients@[i as int].1@);
                }
                let ghost risk_v = risk;
                let ghost m0 = self@.market;
                let ghost s0 = self@.sched;
                let r = self.market.on_quote_accepted(day, submission_id, insured_id, insurer_id, premium, risk, year);
                let ghost rs = r@;
                let ghost m1 = self@.market;
                self.schedule_all(r);
                let ghost s1 = self@.sched;
                self.schedule_renewal(insured_id);
                proof {
                    let rv = self@.clients[i as int].1;
                    assert(client_risk(old(self)@.clients, insured_id) == Some(rv));
                    let q = choose|q: Seq<(Day, Event)>|
                        #[trigger] renewal_request(q, old(self)@.sched.now, insured_id, rv) && scheduled(s1, self@.sched, q);
                    lemma_scheduled_then(s0, s1, self@.sched, rs, q);
                    assert(not_before(rs, day.0));
                    assert(accepted(m0, m1, Day(old(self)@.sched.now), submission_id, insured_id, insurer_id, premium, risk_v, Year(year_of_day(old(self)@.sched.now) as u32), rs));
                }
            },
        }
    }

    /// `QuoteRejected`: the insured will ask again for cover at renewal time.
    pub fn reject(&mut self, insured_id: InsuredId)
        requires
            old(self).wf(),
            old(self)@.sched.now + 361 <= u64::MAX,
        ensures
            final(self).wf(),
            client_risk(old(self)@.clients, insured_id) is None ==> final(self)@ == old(self)@,
            client_risk(old(self)@.clients, insured_id) matches Some(rv) ==> exists|q: Seq<(Day, Event)>|
                #[trigger] renewal_request(q, old(self)@.sched.now, insured_id, rv) && scheduled(
                    old(self)@.sched,
                    final(self)@.sched,
                    q,
                ),
            final(self)@.sched.causal == old(self)@.sched.causal,
            final(self)@ == (CoordinatorView { sched: final(self)@.sched, ..old(self)@ }),
    {
        self.schedule_renewal(insured_id);
    }

    /// `SubmissionDropped`: count the drop for the year; the insured will ask again for
    /// cover at renewal time.
    pub fn drop_submission(&mut self, insured_id: InsuredId)
        requires
            old(self).wf(),
            old(self)@.sched.now + 361 <= u64::MAX,
            old(self)@.dropped < u32::MAX,
        ensures
            final(self).wf(),
            final(self)@.dropped == old(self)@.dropped + 1,
            client_risk(old(self)@.clients, insured_id) is None ==> final(self)@.sched == old(self)@.sched,
            client_risk(old(self)@.clients, insured_id) matches Some(rv) ==> exists|q: Seq<(Day, Event)>|
                #[trigger] renewal_request(q, old(self)@.sched.now, insured_id, rv) && scheduled(
                    old(self)@.sched,
                    final(self)@.sched,
                    q,
                ),
            final(self)@.sched.causal == old(self)@.sched.causal,
            final(self)@ == (CoordinatorView { sched: final(self)@.sched, dropped: final(self)@.dropped, ..old(self)@ }),
    {
        self.dropped = self.dropped + 1;
        self.schedule_renewal(insured_id);
    }

    /// `PolicyBound`: the market activates the policy (see `Market::on_policy_bound`); the
    /// insurer books it (see `Insurer::on_policy_bound`) with the net premium its expense
    /// ratio leaves, and the log entry reports the insurer's windstorm aggregate after the
    /// binding. The premium counts toward the year's written premium.
    pub fn bind(&mut self, policy_id: PolicyId, premium: u64, net_premium: i64)
        requires
            old(self).wf(),
            old(self)@.premium_written + premium <= u64::MAX,
            bound_policy(old(self)@.market, policy_id) matches Some(p) ==> (book_of(old(self)@.books, p.insurer_id) matches Some(i) ==> {
                let b = old(self)@.books[i];
                &&& b.capital + net_premium <= i64::MAX
                &&& b.capital + net_premium >= i64::MIN
                &&& b.ytd.premium + premium <= u64::MAX
                &&& b.ytd.exposure + p.risk.sum_insured <= u64::MAX
                &&& p.risk.perils_covered@.contains(Peril::WindstormAtlantic) ==> b.cat_aggregate + p.risk.sum_insured <= u64::MAX
            }),
        ensures
            final(self).wf(),
            activated(old(self)@.market, final(self)@.market, policy_id),
            final(self)@.premium_written == old(self)@.premium_written + premium,
            match bound_policy(old(self)@.market, policy_id) {
                Some(p) => match book_of(old(self)@.books, p.insurer_id) {
                    Some(i) => {
                        &&& final(self)@.books.len() == old(self)@.books.len()
                        &&& forall|j: int| 0 <= j < old(self)@.books.len() && j != i ==> #[trigger] final(self)@.books[j] == old(self)@.books[j]
                        &&& booked(old(self)@.books[i], final(self)@.books[i], policy_id, premium, net_premium, p.risk.sum_insured, p.risk.perils_covered@)
                        &&& final(self)@.sched == (SchedulerView {
                            log: with_cat_exposure(old(self)@.sched.log, final(self)@.books[i].cat_aggregate),
                            ..old(self)@.sched
                        })
                    },
                    None => final(self)@.books == old(self)@.books && final(self)@.sched == old(self)@.sched,
                },
                None => final(self)@.books == old(self)@.books && final(self)@.sched == old(self)@.sched,
            },
            final(self)@ == (CoordinatorView {
                sched: final(self)@.sched,
                market: final(self)@.market,
                books: final(self)@.books,
                premium_written: final(self)@.premium_written,
                ..old(self)@
            }),
    {
        self.market.on_policy_bound(policy_id);
        self.premium_written = self.premium_written + premium;
        let found = match self.market.policy(policy_id) {
            Some(p) => Some((p.insurer_id, p.risk.sum_insured, p.risk.perils_covered.clone())),
            None => None,
        };
        match found {
            None => {},
            Some((insurer_id, sum_insured, perils)) => {
                proof {
                    let p = bound_policy(old(self)@.market, policy_id)->0;
                    assert(p.insurer_id == insurer_id && p.risk.sum_insured == sum_insured);
                    assert(perils@ =~= p.risk.perils_covered@);
                }
                match self.find_book(insurer_id) {
                    None => {},
                    Some(i) => {
                        let ghost old_books = self.books@;
                        let mut book = self.books.remove(i);
                        book.on_policy_bound(policy_id, premium, net_premium, sum_insured, &perils);
                        let total = book.cat_aggregate();
                        self.books.insert(i, book);
                        proof {
                            assert forall|j: int| 0 <= j < self.books@.len() implies (#[trigger] self.books@[j]).wf() by {
                                if j != i {
                                    assert(self.books@[j] == old_books[j]);
                                }
                            }
                            assert forall|j: int| 0 <= j < old_books.len() && j != i implies #[trigger] self@.books[j] == old(self)@.books[j] by {
                                assert(self.books@[j] == old_books[j]);
                            }
                        }
                        self.amend_bound(total);
                    },
                }
            },
        }
    }

    /// `PolicyExpired`: the insurer releases the policy's windstorm exposure (see
    /// `Insurer::on_policy_expired`) and the market removes the policy (see
    /// `Market::on_policy_expired`).
    pub fn expire(&mut self, policy_id: PolicyId)
        requires
            old(self).wf(),
        ensures
            final(self).wf(),
            expired(old(self)@.market, final(self)@.market, policy_id),
            ({
                let m = old(self)@.market;
                if m.policies.contains_key(policy_id.0) && book_of(old(self)@.books, m.policies[policy_id.0].insurer_id) is Some {
                    let i = book_of(old(self)@.books, m.policies[policy_id.0].insurer_id)->0;
                    &&& final(self)@.books.len() == old(self)@.books.len()
                    &&& forall|j: int| 0 <= j < old(self)@.books.len() && j != i ==> #[trigger] final(self)@.books[j] == old(self)@.books[j]
                    &&& released(old(self)@.books[i], final(self)@.books[i], policy_id)
                } else {
                    final(self)@.books == old(self)@.books
                }
            }),
            !old(self)@.market.policies.contains_key(policy_id.0) ==> final(self)@ == old(self)@,
            final(self)@ == (CoordinatorView { market: final(self)@.market, books: final(self)@.books, ..old(self)@ }),
    {
        let insurer = match self.market.policy(policy_id) {
            Some(p) => Some(p.insurer_id),
            None => None,
        };
        match insurer {
            None => {},
            Some(insurer_id) => {
                match self.find_book(insurer_id) {
                    None => {},
                    Some(i) => {
                        let ghost old_books = self.books@;
                        let mut book = self.books.remove(i);
                        book.on_policy_expired(policy_id);
                        self.books.insert(i, book);
                        proof {
                            assert forall|j: int| 0 <= j < self.books@.len() implies (#[trigger] self.books@[j]).wf() by {
                                if j != i {
                                    assert(self.books@[j] == old_books[j]);
                                }
                            }
                            assert forall|j: int| 0 <= j < old_books.len() && j != i implies #[trigger] self@.books[j] == old(self)@.books[j] by {
                                assert(self.books@[j] == old_books[j]);
                            }
                        }
                    },
                }
            },
        }
        self.market.on_policy_expired(policy_id);
    }

    /// `AssetDamage`: the market routes the loss to the insured's covering policy, if any
    /// (see `Market::on_asset_damage`), and the claim it settles is scheduled.
    pub fn damage(&mut self, insured_id: InsuredId, peril: Peril, ground_up_loss: u64)
        requires
            old(self).wf(),
            old(self)@.sched.now / DAYS_PER_YEAR < u32::MAX,
        ensures
            final(self).wf(),
            exists|r: Seq<(Day, Event)>|
                #[trigger] damaged(
                    old(self)@.market,
                    final(self)@.market,
                    Day(old(self)@.sched.now),
                    insured_id,
                    ground_up_loss,
                    peril,
                    r,
                ) && scheduled(old(self)@.sched, final(self)@.sched, r),
            final(self)@.sched.causal == old(self)@.sched.causal,
            final(self)@ == (CoordinatorView { sched: final(self)@.sched, market: final(self)@.market, ..old(self)@ }),
    {
        let day = self.sched.now();
        let r = self.market.on_asset_damage(day, insured_id, ground_up_loss, peril);
        let ghost rs = r@;
        self.schedule_all(r);
        proof {
            assert(day == Day(old(self)@.sched.now));
            assert(not_before(rs, day.0));
            assert(damaged(old(self)@.market, self@.market, Day(old(self)@.sched.now), insured_id, ground_up_loss, peril, rs));
            assert(scheduled(old(self)@.sched, self@.sched, rs));
        }
    }

    /// `LossEvent`: the catastrophe damages each insured of `losses` (as the damage draw
    /// worked them out) the same day, each with its loss, a loss of zero included.
    pub fn strike(&mut self, peril: Peril, losses: Vec<(InsuredId, u64)>)
        requires
            old(self).wf(),
        ensures
            final(self).wf(),
            scheduled(old(self)@.sched, final(self)@.sched, damage_events(Day(old(self)@.sched.now), peril, losses@)),
            final(self)@.sched.causal == old(self)@.sched.causal,
            final(self)@ == (CoordinatorView { sched: final(self)@.sched, ..old(self)@ }),
    {
        let day = self.sched.now();
        let r = asset_damage_events(day, peril, losses);
        proof {
            lemma_damage_events_on(day, peril, losses@);
        }
        self.schedule_all(r);
    }

    /// `ClaimSettled`: the insurer pays the claim out of its capital (see
    /// `Insurer::on_claim_settled`), the log entry reports the capital it has left, and
    /// its insolvency notice, if the claim exhausted it, is scheduled. The claim counts
    /// toward the year's settled claims.
    pub fn settle(&mut self, insurer_id: InsurerId, amount: u64, peril: Peril)
        requires
            old(self).wf(),
            old(self)@.claims_settled + amount <= u64::MAX,
            book_of(old(self)@.books, insurer_id) matches Some(i) ==> {
                let b = old(self)@.books[i];
                &&& b.ytd.total_claims + payable(b.capital, amount) <= u64::MAX
                &&& peril == Peril::Attritional ==> b.ytd.attritional_claims + payable(b.capital, amount) <= u64::MAX
            },
        ensures
            final(self).wf(),
            final(self)@.claims_settled == old(self)@.claims_settled + amount,
            match book_of(old(self)@.books, insurer_id) {
                Some(i) => {
                    &&& final(self)@.books.len() == old(self)@.books.len()
                    &&& forall|j: int| 0 <= j < old(self)@.books.len() && j != i ==> #[trigger] final(self)@.books[j] == old(self)@.books[j]
                    &&& exists|r: Seq<(Day, Event)>|
                        #[trigger] claim_paid(old(self)@.books[i], final(self)@.books[i], Day(old(self)@.sched.now), amount, peril, r)
                            && scheduled(
                            SchedulerView {
                                log: with_remaining_capital(old(self)@.sched.log, floored(final(self)@.books[i].capital)),
                                ..old(self)@.sched
                            },
                            final(self)@.sched,
                            r,
                        )
                },
                None => final(self)@.books == old(self)@.books && final(self)@.sched == old(self)@.sched,
            },
            final(self)@.sched.causal == old(self)@.sched.causal,
            final(self)@ == (CoordinatorView {
                sched: final(self)@.sched,
                books: final(self)@.books,
                claims_settled: final(self)@.claims_settled,
                ..old(self)@
            }),
    {
        self.claims_settled = self.claims_settled + amount;
        match self.find_book(insurer_id) {
            None => {},
            Some(i) => {
                let day = self.sched.now();
                let ghost old_books = self.books@;
                let mut book = self.books.remove(i);
                let r = book.on_claim_settled(day, amount, peril);
                let remaining = book.reported_capital();
                self.books.insert(i, book);
                proof {
                    assert forall|j: int| 0 <= j < self.books@.len() implies (#[trigger] self.books@[j]).wf() by {
                        if j != i {
                            assert(self.books@[j] == old_books[j]);
                        }
                    }
                    assert forall|j: int| 0 <= j < old_books.len() && j != i implies #[trigger] self@.books[j] == old(self)@.books[j] by {
                        assert(self.books@[j] == old_books[j]);
                    }
                }
                self.amend_settled(remaining);
                let ghost s1 = self@.sched;
                let ghost rs = r@;
                self.schedule_all(r);
                proof {
                    assert(day == Day(old(self)@.sched.now));
                    assert(not_before(rs, day.0));
                    assert(claim_paid(old(self)@.books[i as int], self@.books[i as int], Day(old(self)@.sched.now), amount, peril, rs));
                    assert(s1 == (SchedulerView {
                        log: with_remaining_capital(old(self)@.sched.log, floored(self@.books[i as int].capital)),
                        ..old(self)@.sched
                    }));
                    assert(scheduled(s1, self@.sched, rs));
                }
            },
        }
    }

    /// `YearStart`, first half: the year's counters start at zero, and in the first year
    /// every client asks for cover, spread over the year's first days (see
    /// `initial_request_offsets`).
    pub fn open_year(&mut self, year: Year)
        requires
            old(self).wf(),
            old(self)@.clients.len() <= u32::MAX,
            old(self)@.sched.now + INITIAL_REQUEST_WINDOW <= u64::MAX,
        ensures
            final(self).wf(),
            final(self)@.premium_written == 0,
            final(self)@.claims_settled == 0,
            final(self)@.dropped == 0,
            year.0 == 1 ==> exists|r: Seq<(Day, Event)>|
                #[trigger] initial_requests(r, old(self)@.sched.now, old(self)@.clients) && scheduled(
                    old(self)@.sched,
                    final(self)@.sched,
                    r,
                ),
            year.0 != 1 ==> final(self)@.sched == old(self)@.sched,
            final(self)@.sched.causal == old(self)@.sched.causal,
            final(self)@ == (CoordinatorView {
                sched: final(self)@.sched,
                premium_written: 0,
                claims_settled: 0,
                dropped: 0,
                ..old(self)@
            }),
    {
        self.premium_written = 0;
        self.claims_settled = 0;
        self.dropped = 0;
        if year.0 == 1 {
            let day = self.sched.now();
            let n = self.clients.len();
            let offsets = initial_request_offsets(n);
            let mut r: Vec<(Day, Event)> = Vec::new();
            let mut i: usize = 0;
            while i < n
                invariant
                    i <= n,
                    n == self@.clients.len(),
                    n <= u32::MAX,
                    day.0 == old(self)@.sched.now,
                    day.0 + INITIAL_REQUEST_WINDOW <= u64::MAX,
                    offsets@.len() == n,
                    forall|j: int| 0 <= j < n ==> #[trigger] offsets@[j] == request_offset(j, n as int),
                    self@.clients == old(self)@.clients,
                    r@.len() == i,
                    forall|j: int| 0 <= j < i ==> request_at(#[trigger] r@[j], day.0, j, self@.clients),
                decreases n - i,
            {
                proof {
                    lemma_request_offset_in_window(i as int, n as int);
                }
                let off = offsets[i];
                let risk = self.clients[i].1.clone();
                let ghost before = r@;
                r.push((day.offset(off), Event::CoverageRequested { insured_id: self.clients[i].0, risk }));
                proof {
                    assert(self@.clients[i as int] == (self.clients@[i as int].0, self.clients@[i as int].1@));
                    assert forall|j: int| 0 <= j < r@.len() implies request_at(#[trigger] r@[j], day.0, j, self@.clients) by {
                        if j < i {
                            assert(before[j] == r@[j]);
                        }
                    }
                }
                i = i + 1;
            }
            proof {
                assert(initial_requests(r@, day.0, self@.clients));
                assert(not_before(r@, day.0)) by {
                    assert forall|j: int| 0 <= j < r@.len() implies (#[trigger] r@[j]).0.0 >= day.0 by {
                        assert(request_at(r@[j], day.0, j, self@.clients));
                        lemma_request_offset_in_window(j, n as int);
                    }
                }
            }
            self.schedule_all(r);
        }
    }

    /// `YearStart`, second half: the year closes with its `YearEnd` on its last day.
    pub fn schedule_year_end(&mut self, year: Year)
        requires
            old(self).wf(),
            year.0 >= 1,
        ensures
            final(self).wf(),
            scheduled(
                old(self)@.sched,
                final(self)@.sched,
                seq![(Day((year.0 * DAYS_PER_YEAR - 1) as u64), Event::YearEnd { year })],
            ),
            final(self)@ == (CoordinatorView { sched: final(self)@.sched, ..old(self)@ }),
    {
        let (d, e) = year_end_event(year);
        self.schedule(d, e);
    }

    /// `YearEnd`: the broker forgets the year's declines (see `Broker::on_year_end`).
    pub fn close_broker_year(&mut self)
        requires
            old(self).wf(),
        ensures
            final(self).wf(),
            final(self)@.broker == (BrokerView {
                decline_counts: Seq::new(old(self)@.broker.insurer_ids.len(), |i: int| 0u64),
                ..old(self)@.broker
            }),
            final(self)@ == (CoordinatorView { broker: final(self)@.broker, ..old(self)@ }),
    {
        self.broker.on_year_end();
    }

    /// `YearEnd`: insurer `insurer_id` pays `distributable` to its Names if it stays at or
    /// above `floor` (see `Insurer::distribute_profit`), and the payment, if made, is logged
    /// the same day. An insurer without a book changes nothing.
    pub fn distribute(&mut self, insurer_id: InsurerId, distributable: u64, floor: i64)
        requires
            old(self).wf(),
        ensures
            final(self).wf(),
            match book_of(old(self)@.books, insurer_id) {
                Some(i) => {
                    &&& final(self)@.books.len() == old(self)@.books.len()
                    &&& forall|j: int| 0 <= j < old(self)@.books.len() && j != i ==> #[trigger] final(self)@.books[j] == old(self)@.books[j]
                    &&& exists|r: Seq<(Day, Event)>|
                        #[trigger] profit_paid(old(self)@.books[i], final(self)@.books[i], Day(old(self)@.sched.now), distributable, floor, r)
                            && scheduled(old(self)@.sched, final(self)@.sched, r)
                },
                None => final(self)@.books == old(self)@.books && final(self)@.sched == old(self)@.sched,
            },
            final(self)@.sched.causal == old(self)@.sched.causal,
            final(self)@ == (CoordinatorView { sched: final(self)@.sched, books: final(self)@.books, ..old(self)@ }),
    {
        match self.find_book(insurer_id) {
            None => {},
            Some(i) => {
                let day = self.sched.now();
                let ghost old_books = self.books@;
                let mut book = self.books.remove(i);
                let r = book.distribute_profit(day, distributable, floor);
                self.books.insert(i, book);
                proof {
                    assert forall|j: int| 0 <= j < self.books@.len() implies (#[trigger] self.books@[j]).wf() by {
                        if j != i {
                            assert(self.books@[j] == old_books[j]);
                        }
                    }
                    assert forall|j: int| 0 <= j < old_books.len() && j != i implies #[trigger] self@.books[j] == old(self)@.books[j] by {
                        assert(self.books@[j] == old_books[j]);
                    }
                }
                let ghost rs = r@;
                self.schedule_all(r);
                proof {
                    assert(day == Day(old(self)@.sched.now));
                    assert(not_before(rs, day.0));
                    let k = book_of(old(self)@.books, insurer_id)->0;
                    assert(profit_paid(old(self)@.books[k], self@.books[k], Day(old(self)@.sched.now), distributable, floor, rs));
                    assert(scheduled(old(self)@.sched, self@.sched, rs));
                }
            },
        }
    }

    /// `YearEnd`: insurer `insurer_id` reports its year-end position and closes its year
    /// (see `Insurer::close_year`); the report is logged the same day. An insurer without a
    /// book changes nothing.
    pub fn close_book(&mut self, insurer_id: InsurerId)
        requires
            old(self).wf(),
        ensures
            final(self).wf(),
            match book_of(old(self)@.books, insurer_id) {
                Some(i) => {
                    &&& final(self)@.books.len() == old(self)@.books.len()
                    &&& forall|j: int| 0 <= j < old(self)@.books.len() && j != i ==> #[trigger] final(self)@.books[j] == old(self)@.books[j]
                    &&& exists|r: Seq<(Day, Event)>|
                        #[trigger] year_closed(old(self)@.books[i], final(self)@.books[i], Day(old(self)@.sched.now), r)
                            && scheduled(old(self)@.sched, final(self)@.sched, r)
                },
                None => final(self)@.books == old(self)@.books && final(self)@.sched == old(self)@.sched,
            },
            final(self)@.sched.causal == old(self)@.sched.causal,
            final(self)@ == (CoordinatorView { sched: final(self)@.sched, books: final(self)@.books, ..old(self)@ }),
    {
        match self.find_book(insurer_id) {
            None => {},
            Some(i) => {
                let day = self.sched.now();
                let ghost old_books = self.books@;
                let mut book = self.books.remove(i);
                let r = book.close_year(day);
                self.books.insert(i, book);
                proof {
                    assert forall|j: int| 0 <= j < self.books@.len() implies (#[trigger] self.books@[j]).wf() by {
                        if j != i {
                            assert(self.books@[j] == old_books[j]);
                        }
                    }
                    assert forall|j: int| 0 <= j < old_books.len() && j != i implies #[trigger] self@.books[j] == old(self)@.books[j] by {
                        assert(self.books@[j] == old_books[j]);
                    }
                }
                let ghost rs = r@;
                self.schedule_all(r);
                proof {
                    assert(day == Day(old(self)@.sched.now));
                    assert(not_before(rs, day.0));
                    let k = book_of(old(self)@.books, insurer_id)->0;
                    assert(year_closed(old(self)@.books[k], self@.books[k], Day(old(self)@.sched.now), rs));
                    assert(scheduled(old(self)@.sched, self@.sched, rs));
                }
            },
        }
    }

    /// `YearEnd`: insurer `insurer_id`, with single-risk limit `max_line`, is retired if it
    /// can no longer write the smallest risk on offer (see `Insurer::check_writable`); its
    /// notice, if any, is scheduled.
    pub fn check_book(&mut self, insurer_id: InsurerId, max_line: Option<u64>, min_sum_insured: u64)
        requires
            old(self).wf(),
        ensures
            final(self).wf(),
            match book_of(old(self)@.books, insurer_id) {
                Some(i) => {
                    &&& final(self)@.books.len() == old(self)@.books.len()
                    &&& forall|j: int| 0 <= j < old(self)@.books.len() && j != i ==> #[trigger] final(self)@.books[j] == old(self)@.books[j]
                    &&& exists|r: Seq<(Day, Event)>|
                        #[trigger] writability_checked(old(self)@.books[i], final(self)@.books[i], Day(old(self)@.sched.now), max_line, min_sum_insured, r)
                            && scheduled(old(self)@.sched, final(self)@.sched, r)
                },
                None => final(self)@.books == old(self)@.books && final(self)@.sched == old(self)@.sched,
            },
            final(self)@.sched.causal == old(self)@.sched.causal,
            final(self)@ == (CoordinatorView { sched: final(self)@.sched, books: final(self)@.books, ..old(self)@ }),
    {
        match self.find_book(insurer_id) {
            None => {},
            Some(i) => {
                let day = self.sched.now();
                let ghost old_books = self.books@;
                let mut book = self.books.remove(i);
                let r = book.check_writable(day, max_line, min_sum_insured);
                self.books.insert(i, book);
                proof {
                    assert forall|j: int| 0 <= j < self.books@.len() implies (#[trigger] self.books@[j]).wf() by {
                        if j != i {
                            assert(self.books@[j] == old_books[j]);
                        }
                    }
                    assert forall|j: int| 0 <= j < old_books.len() && j != i implies #[trigger] self@.books[j] == old(self)@.books[j] by {
                        assert(self.books@[j] == old_books[j]);
                    }
                }
                let ghost rs = r@;
                self.schedule_all(r);
                proof {
                    assert(day == Day(old(self)@.sched.now));
                    assert(not_before(rs, day.0));
                    assert(writability_checked(old(self)@.books[book_of(old(self)@.books, insurer_id)->0], self@.books[book_of(old(self)@.books, insurer_id)->0], Day(old(self)@.sched.now), max_line, min_sum_insured, rs));
                    assert(scheduled(old(self)@.sched, self@.sched, rs));
                }
            },
        }
    }

    /// `YearEnd`: a new insurer enters with `initial_capital`: it gets a fresh book, joins
    /// the broker's pool with no declines, and its entry is logged the same day.
    pub fn admit_insurer(&mut self, insurer_id: InsurerId, initial_capital: i64)
        requires
            old(self).wf(),
        ensures
            final(self).wf(),
            final(self)@.books.len() == old(self)@.books.len() + 1,
            final(self)@.books.drop_last() == old(self)@.books,
            ({
                let b = final(self)@.books.last();
                &&& b.id == insurer_id
                &&& b.capital == initial_capital
                &&& b.initial_capital == initial_capital
                &&& !b.insolvent
                &&& b.ytd.is_zero()
                &&& b.cat_aggregate == 0
                &&& b.cat_shares.is_empty()
            }),
            final(self)@.broker == (BrokerView {
                insurer_ids: old(self)@.broker.insurer_ids.push(insurer_id),
                decline_counts: old(self)@.broker.decline_counts.push(0),
                ..old(self)@.broker
            }),
            scheduled(
                old(self)@.sched,
                final(self)@.sched,
                seq![
                    (
                        Day(old(self)@.sched.now),
                        Event::InsurerEntered { insurer_id, initial_capital: floored(initial_capital) },
                    ),
                ],
            ),
            final(self)@.sched.causal == old(self)@.sched.causal,
            final(self)@ == (CoordinatorView {
                sched: final(self)@.sched,
                broker: final(self)@.broker,
                books: final(self)@.books,
                ..old(self)@
            }),
    {
        let book = Insurer::new(insurer_id, initial_capital);
        let entered = book.reported_capital();
        let ghost old_books = self.books@;
        self.books.push(book);
        proof {
            assert forall|j: int| 0 <= j < self.books@.len() implies (#[trigger] self.books@[j]).wf() by {
                if j < old_books.len() {
                    assert(self.books@[j] == old_books[j]);
                }
            }
            assert(self@.books.drop_last() =~= old(self)@.books);
        }
        self.broker.add_insurer(insurer_id);
        let day = self.sched.now();
        self.schedule(day, Event::InsurerEntered { insurer_id, initial_capital: entered });
    }

    /// `YearEnd`, last: the next year starts on its first day while the run has years
    /// left (see `next_year_start`).
    pub fn schedule_next_year(&mut self, year: Year, total_years: u32)
        requires
            old(self).wf(),
        ensures
            final(self).wf(),
            year.0 < total_years ==> scheduled(
                old(self)@.sched,
                final(self)@.sched,
                seq![(Day((year.0 * DAYS_PER_YEAR) as u64), Event::YearStart { year: Year((year.0 + 1) as u32) })],
            ),
            year.0 >= total_years ==> final(self)@.sched == old(self)@.sched,
            final(self)@ == (CoordinatorView { sched: final(self)@.sched, ..old(self)@ }),
    {
        match next_year_start(year, total_years) {
            Some((d, e)) => self.schedule(d, e),
            None => {},
        }
    }

    /// Report `total` as the windstorm aggregate in a last `PolicyBound` log entry.
    fn amend_bound(&mut self, total: u64)
        requires
            old(self).wf(),
        ensures
            final(self).wf(),
            final(self)@ == (CoordinatorView {
                sched: SchedulerView { log: with_cat_exposure(old(self)@.sched.log, total), ..old(self)@.sched },
                ..old(self)@
            }),
    {
        let n = self.sched.log().len();
        if n == 0 {
            return;
        }
        let last = &self.sched.log().as_slice()[n - 1];
        let amended = match &last.event {
            Event::PolicyBound { policy_id, submission_id, insured_id, insurer_id, premium, sum_insured, .. } => Some(
                Event::PolicyBound {
                    policy_id: *policy_id,
                    submission_id: *submission_id,
                    insured_id: *insured_id,
                    insurer_id: *insurer_id,
                    premium: *premium,
                    sum_insured: *sum_insured,
                    total_cat_exposure: total,
                },
            ),
            _ => None,
        };
        match amended {
            Some(e) => self.sched.amend_last(e),
            None => {},
        }
    }

    /// Report `capital` as the capital left in a last `ClaimSettled` log entry.
    fn amend_settled(&mut self, capital: u64)
        requires
            old(self).wf(),
        ensures
            final(self).wf(),
            final(self)@ == (CoordinatorView {
                sched: SchedulerView { log: with_remaining_capital(old(self)@.sched.log, capital), ..old(self)@.sched },
                ..old(self)@
            }),
    {
        let n = self.sched.log().len();
        if n == 0 {
            return;
        }
        let last = &self.sched.log().as_slice()[n - 1];
        let amended = match &last.event {
            Event::ClaimSettled { policy_id, insurer_id, amount, peril, .. } => Some(
                Event::ClaimSettled {
                    policy_id: *policy_id,
                    insurer_id: *insurer_id,
                    amount: *amount,
                    peril: *peril,
                    remaining_capital: capital,
                },
            ),
            _ => None,
        };
        match amended {
            Some(e) => self.sched.amend_last(e),
            None => {},
        }
    }

    /// Schedule every pair of `events`, in order.
    fn schedule_all(&mut self, events: Vec<(Day, Event)>)
        requires
            old(self).wf(),
        ensures
            final(self).wf(),
            scheduled(old(self)@.sched, final(self)@.sched, events@),
            final(self)@ == (CoordinatorView { sched: final(self)@.sched, ..old(self)@ }),
    {
        let ghost all = events@;
        let ghost q0 = self.sched@.queue;
        let n = events.len();
        let mut rest = events;
        let mut k: usize = 0;
        while rest.len() > 0
            invariant
                self.wf(),
                k + rest@.len() == all.len(),
                all.len() == n,
                rest@ == all.skip(k as int),
                self.sched@.queue.to_multiset() == q0.to_multiset().add(as_entries(all.take(k as int)).to_multiset()),
                self.sched@.log == old(self)@.sched.log,
                self.sched@.now == old(self)@.sched.now,
                self.sched@.max_day == old(self)@.sched.max_day,
                self.sched@.max_events == old(self)@.sched.max_events,
                self.sched@.causal == (old(self)@.sched.causal && not_before(all.take(k as int), old(self)@.sched.now)),
                self@ == (CoordinatorView { sched: self@.sched, ..old(self)@ }),
            decreases rest@.len(),
        {
            let ghost before = self.sched@.queue;
            let (d, e) = rest.remove(0);
            proof {
                assert(all[k as int] == (d, e));
                assert(all.take(k + 1) == all.take(k as int).push((d, e)));
                assert(as_entries(all.take(k + 1)) == as_entries(all.take(k as int)).push(SimEvent { day: d, event: e }));
            }
            self.sched.schedule(d, e);
            proof {
                let ev = SimEvent { day: d, event: e };
                assert(self.sched@.queue.to_multiset() == before.to_multiset().insert(ev)) by {
                    lemma_enqueued_multiset(before, self.sched@.queue, ev);
                }
                let prev = as_entries(all.take(k as int));
                assert(as_entries(all.take(k + 1)).to_multiset() == prev.to_multiset().insert(ev));
                assert(q0.to_multiset().add(prev.to_multiset().insert(ev)) =~= q0.to_multiset().add(
                    prev.to_multiset(),
                ).insert(ev));
                assert(not_before(all.take(k + 1), old(self)@.sched.now) == (not_before(all.take(k as int), old(self)@.sched.now) && d.0 >= old(self)@.sched.now)) by {
                    let t = all.take(k + 1);
                    if not_before(all.take(k as int), old(self)@.sched.now) && d.0 >= old(self)@.sched.now {
                        assert forall|i: int| 0 <= i < t.len() implies (#[trigger] t[i]).0.0 >= old(self)@.sched.now by {
                            if i < k {
                                assert(t[i] == all.take(k as int)[i]);
                            }
                        }
                    }
                    if not_before(t, old(self)@.sched.now) {
                        assert(t[k as int] == (d, e));
                        assert forall|i: int| 0 <= i < all.take(k as int).len() implies (#[trigger] all.take(k as int)[i]).0.0 >= old(self)@.sched.now by {
                            assert(t[i] == all.take(k as int)[i]);
                        }
                    }
                }
                assert(rest@ == all.skip(k + 1));
            }
            k = k + 1;
        }
        proof {
            assert(all.take(all.len() as int) == all);
        }
    }
}

proof fn lemma_enqueued_multiset(before: Seq<SimEvent>, after: Seq<SimEvent>, ev: SimEvent)
    requires
        enqueued(before, after, ev),
    ensures
        after.to_multiset() == before.to_multiset().insert(ev),
{
    let p = choose|p: int| #[trigger] crate::schedule::slot_for(before, p, ev.day.0) && after == before.insert(p, ev);
    vstd::seq_lib::to_multiset_insert(before, p, ev);
}

/// Back-filling the entry being dispatched (the windstorm aggregate after a binding, the
/// capital left after a claim) keeps the log's history: its length, every earlier entry,
/// and the day and kind of the entry itself stay as they were logged.
pub proof fn lemma_backfill_keeps_history(log: Seq<SimEvent>, total: u64, capital: u64)
    ensures
        with_cat_exposure(log, total).len() == log.len(),
        with_remaining_capital(log, capital).len() == log.len(),
        forall|i: int|
            0 <= i < log.len() - 1 ==> #[trigger] with_cat_exposure(log, total)[i] == log[i]
                && with_remaining_capital(log, capital)[i] == log[i],
        log.len() > 0 ==> {
            &&& with_cat_exposure(log, total).last().day == log.last().day
            &&& with_remaining_capital(log, capital).last().day == log.last().day
            &&& (with_cat_exposure(log, total).last().event is PolicyBound <==> log.last().event is PolicyBound)
            &&& (with_remaining_capital(log, capital).last().event is ClaimSettled <==> log.last().event
                is ClaimSettled)
        },
{
}

/// The quoting chain takes `QUOTING_CHAIN_DAYS`, and renewals do not drift: a request
/// routed on day `d` whose lead quotes the day it is asked, and whose quote the insured
/// accepts the day it is presented, binds on `d + QUOTING_CHAIN_DAYS`; the policy expires
/// 360 days after it binds; and the insured's renewal request, made at acceptance, runs
/// through the same chain to bind on the very day the policy expires.
pub proof fn lemma_quote_chain_days(
    d: u64,
    b0: BrokerView,
    b1: BrokerView,
    insured_id: InsuredId,
    risk: Risk,
    standing: Seq<u64>,
    routed_r: Seq<(Day, Event)>,
    b2: BrokerView,
    insurer_id: InsurerId,
    premium: u64,
    presented_r: Seq<(Day, Event)>,
    m0: MarketView,
    m1: MarketView,
    bound_risk: Risk,
    year: Year,
    accepted_r: Seq<(Day, Event)>,
    renewal_r: Seq<(Day, Event)>,
)
    requires
        d + 2 * 361 <= u64::MAX,
        b0.insurer_ids.len() > 0,
        routed(b0, b1, Day(d), insured_id, risk, standing, routed_r),
        presented(b1, b2, routed_r[0].0, SubmissionId(b0.next_submission_id), insurer_id, premium, presented_r),
        accepted(
            m0,
            m1,
            presented_r[0].0,
            SubmissionId(b0.next_submission_id),
            insured_id,
            insurer_id,
            premium,
            bound_risk,
            year,
            accepted_r,
        ),
        renewal_request(renewal_r, presented_r[0].0.0, insured_id, risk@),
    ensures
        accepted_r[0].0.0 == d + QUOTING_CHAIN_DAYS,
        accepted_r[0].1 is PolicyBound,
        accepted_r[1].0.0 == accepted_r[0].0.0 + 360,
        accepted_r[1].1 is PolicyExpired,
        renewal_r[0].0.0 + QUOTING_CHAIN_DAYS == accepted_r[1].0.0,
{
    assert(b1.pending.contains_key(b0.next_submission_id));
}

/// However the run has gone, every insurer's book reconciles: its capital is its initial
/// endowment plus the net premiums credited, less the claims paid and the profit
/// distributed; and it has issued at most one insolvency notice, exactly when insolvent.
pub proof fn lemma_books_reconcile(c: &Coordinator)
    requires
        c.wf(),
    ensures
        forall|i: int|
            0 <= i < c@.books.len() ==> {
                let b = #[trigger] c@.books[i];
                &&& b.capital == b.initial_capital + b.credited - b.paid - b.distributed
                &&& b.notices <= 1
                &&& (b.notices == 1 <==> b.insolvent)
            },
{
    assert forall|i: int| 0 <= i < c@.books.len() implies {
        let b = #[trigger] c@.books[i];
        &&& b.capital == b.initial_capital + b.credited - b.paid - b.distributed
        &&& b.notices <= 1
        &&& (b.notices == 1 <==> b.insolvent)
    } by {
        assert(c@.books[i] == c.books@[i]@);
        crate::insurer::lemma_capital_reconciles(&c.books@[i]);
    }
}

/// Nothing the dispatcher has logged lies beyond the run's horizon (the one
/// `Coordinator::new` set, which no handler moves); and while every event has been
/// scheduled no earlier than the day being dispatched, its log is in day order.
pub proof fn lemma_dispatch_log_is_day_ordered(c: &Coordinator)
    requires
        c.wf(),
    ensures
        c@.sched.max_day matches Some(h) ==> forall|i: int|
            0 <= i < c@.sched.log.len() ==> (#[trigger] c@.sched.log[i]).day.0 <= h.0,
        c@.sched.causal ==> day_ordered(c@.sched.log),
{
    if c@.sched.causal {
        crate::schedule::lemma_causal_log_is_day_ordered(&c.sched);
    }
}

} // verus!
