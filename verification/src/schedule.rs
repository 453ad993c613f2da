//! The discrete-event clock: a queue of scheduled events, drawn earliest day first
//! (same-day events in the order they were scheduled), each one appended to the
//! event log as it is dispatched, until the horizon day or the event budget is
//! reached.
use vstd::prelude::*;

use crate::events::{Event, EventLog, SimEvent};
use crate::types::{Day, Year};

verus! {

/// The scheduler's abstract state.
pub struct SchedulerView {
    /// Events waiting, latest day first; the next one to fire is the last.
    pub queue: Seq<SimEvent>,
    /// Events dispatched so far, in dispatch order.
    pub log: Seq<SimEvent>,
    /// Events later than this day are never dispatched.
    pub max_day: Option<Day>,
    /// At most this many events are dispatched.
    pub max_events: Option<usize>,
    /// The day of the event dispatched last (day 0 before the first).
    pub now: u64,
    /// Every event scheduled so far was scheduled no earlier than the clock at the time.
    pub causal: bool,
}

/// The event queue and the log of what it has dispatched.
pub struct Scheduler {
    queue: Vec<SimEvent>,
    log: EventLog,
    max_day: Option<Day>,
    max_events: Option<usize>,
    now: u64,
    causal: Ghost<bool>,
}

/// Days never increase along `q` (the latest-first order of the queue).
pub open spec fn latest_first(q: Seq<SimEvent>) -> bool {
    forall|i: int, j: int| 0 <= i < j < q.len() ==> (#[trigger] q[i]).day.0 >= (#[trigger] q[j]).day.0
}

/// Days never decrease along `log`.
pub open spec fn day_ordered(log: Seq<SimEvent>) -> bool {
    forall|i: int, j: int| 0 <= i < j < log.len() ==> (#[trigger] log[i]).day.0 <= (#[trigger] log[j]).day.0
}

/// Position `p` of the latest-first queue `q` is where an event for `day` goes: after
/// every event of a later day, before every event of that day or earlier.
pub open spec fn slot_for(q: Seq<SimEvent>, p: int, day: u64) -> bool {
    &&& 0 <= p <= q.len()
    &&& forall|i: int| 0 <= i < p ==> (#[trigger] q[i]).day.0 > day
    &&& forall|i: int| p <= i < q.len() ==> (#[trigger] q[i]).day.0 <= day
}

/// `after` is the queue `before` with `ev` placed in its slot.
pub open spec fn enqueued(before: Seq<SimEvent>, after: Seq<SimEvent>, ev: SimEvent) -> bool {
    exists|p: int| #[trigger] slot_for(before, p, ev.day.0) && after == before.insert(p, ev)
}

impl View for Scheduler {
    type V = SchedulerView;

    closed spec fn view(&self) -> SchedulerView {
        SchedulerView {
            queue: self.queue@,
            log: self.log@,
            max_day: self.max_day,
            max_events: self.max_events,
            now: self.now,
            causal: self.causal@,
        }
    }
}

impl Scheduler {
    /// The scheduler's invariant: the queue is kept latest first; the clock is the day of
    /// the last logged event; and while every event has been scheduled causally, the log
    /// is in day order and nothing waiting is earlier than the clock.
    pub closed spec fn wf(&self) -> bool {
        &&& latest_first(self.queue@)
        &&& self.log@.len() > 0 ==> self.log@.last().day.0 == self.now
        &&& self.causal@ ==> {
            &&& day_ordered(self.log@)
            &&& forall|i: int| 0 <= i < self.queue@.len() ==> (#[trigger] self.queue@[i]).day.0 >= self.now
        }
    }

    /// An empty queue and log, with no horizon and no event budget.
    pub fn new() -> (s: Scheduler)
        ensures
            s.wf(),
            s@.queue.len() == 0,
            s@.log.len() == 0,
            s@.max_day is None,
            s@.max_events is None,
            s@.now == 0,
            s@.causal,
    {
        Scheduler {
            queue: Vec::new(),
            log: EventLog::new(),
            max_day: None,
            max_events: None,
            now: 0,
            causal: Ghost(true),
        }
    }

    /// Stop before any event later than `day`.
    pub fn until(self, day: Day) -> (s: Scheduler)
        requires
            self.wf(),
        ensures
            s.wf(),
            s@ == (SchedulerView { max_day: Some(day), ..self@ }),
    {
        Scheduler { max_day: Some(day), ..self }
    }

    /// Stop after `n` events.
    pub fn with_max_events(self, n: usize) -> (s: Scheduler)
        requires
            self.wf(),
        ensures
            s.wf(),
            s@ == (SchedulerView { max_events: Some(n), ..self@ }),
    {
        Scheduler { max_events: Some(n), ..self }
    }

    /// The log of dispatched events.
    pub fn log(&self) -> (r: &EventLog)
        ensures
            r@ == self@.log,
    {
        &self.log
    }

    /// Replace the most recently dispatched entry's event, keeping its day: for fields
    /// known only once the event has been handled (such as capital remaining after a claim).
    pub fn amend_last(&mut self, event: Event)
        requires
            old(self).wf(),
            old(self)@.log.len() > 0,
        ensures
            final(self).wf(),
            final(self)@ == (SchedulerView {
                log: old(self)@.log.update(
                    old(self)@.log.len() - 1,
                    SimEvent { day: old(self)@.log.last().day, event },
                ),
                ..old(self)@
            }),
    {
        let ghost old_log = self.log@;
        match self.log.last_mut() {
            None => {},
            Some(last) => {
                last.event = event;
            },
        }
        proof {
            assert(self.log@ =~= old_log.update(old_log.len() - 1, SimEvent { day: old_log.last().day, event }));
            if self.causal@ {
                assert forall|i: int, j: int| 0 <= i < j < self.log@.len() implies (#[trigger] self.log@[i]).day.0
                    <= (#[trigger] self.log@[j]).day.0 by {
                    assert(self.log@[i].day == old_log[i].day);
                    assert(self.log@[j].day == old_log[j].day);
                }
            }
        }
    }

    /// The day of the event dispatched last (day 0 before the first).
    pub fn now(&self) -> (d: Day)
        ensures
            d.0 == self@.now,
    {
        Day(self.now)
    }

    /// Number of events waiting.
    pub fn pending(&self) -> (n: usize)
        ensures
            n == self@.queue.len(),
    {
        self.queue.len()
    }

    /// Schedule `event` to fire on `day`, after any event already waiting for that day.
    pub fn schedule(&mut self, day: Day, event: Event)
        requires
            old(self).wf(),
        ensures
            final(self).wf(),
            enqueued(old(self)@.queue, final(self)@.queue, SimEvent { day, event }),
            final(self)@.log == old(self)@.log,
            final(self)@.max_day == old(self)@.max_day,
            final(self)@.max_events == old(self)@.max_events,
            final(self)@.now == old(self)@.now,
            final(self)@.causal == (old(self)@.causal && day.0 >= old(self)@.now),
    {
        let ghost q = self.queue@;
        let mut p: usize = 0;
        while p < self.queue.len() && self.queue[p].day.0 > day.0
            invariant
                self.queue@ == q,
                p <= q.len(),
                forall|i: int| 0 <= i < p ==> (#[trigger] q[i]).day.0 > day.0,
            decreases q.len() - p,
        {
            p = p + 1;
        }
        let ev = SimEvent { day, event };
        self.queue.insert(p, ev);
        proof {
            q.insert_ensures(p as int, ev);
            assert forall|i: int| p <= i < q.len() implies (#[trigger] q[i]).day.0 <= day.0 by {
                assert(latest_first(q));
                if i > p {
                    assert(q[p as int].day.0 >= q[i].day.0);
                }
            }
            assert forall|i: int, j: int| 0 <= i < j < self.queue@.len() implies (#[trigger] self.queue@[i]).day.0
                >= (#[trigger] self.queue@[j]).day.0 by {
                if j < p {
                } else if j == p {
                    assert(self.queue@[i] == q[i]);
                } else if i < p {
                    assert(self.queue@[j] == q[j - 1]);
                } else if i == p {
                    assert(self.queue@[j] == q[j - 1]);
                } else {
                    assert(self.queue@[i] == q[i - 1] && self.queue@[j] == q[j - 1]);
                }
            }
            assert(self.queue@ == q.insert(p as int, SimEvent { day, event }));
            assert(slot_for(q, p as int, day.0));
            self.causal@ = self.causal@ && day.0 >= self.now;
            if self.causal@ {
                assert forall|i: int| 0 <= i < self.queue@.len() implies (#[trigger] self.queue@[i]).day.0 >= self.now by {
                    if i < p {
                        assert(self.queue@[i] == q[i]);
                    } else if i > p {
                        assert(self.queue@[i] == q[i - 1]);
                    }
                }
            }
        }
    }

    /// Bootstrap a run: schedule `SimulationStart` on day 0, carrying the warm-up and
    /// analysis lengths so that readers of the log can find them.
    pub fn start(&mut self, warmup_years: u32, analysis_years: u32)
        requires
            old(self).wf(),
        ensures
            final(self).wf(),
            enqueued(
                old(self)@.queue,
                final(self)@.queue,
                SimEvent {
                    day: Day(0),
                    event: Event::SimulationStart { year_start: Year(1), warmup_years, analysis_years },
                },
            ),
            final(self)@.log == old(self)@.log,
            final(self)@.max_day == old(self)@.max_day,
            final(self)@.max_events == old(self)@.max_events,
            final(self)@.now == old(self)@.now,
            final(self)@.causal == (old(self)@.causal && old(self)@.now == 0),
    {
        self.schedule(
            Day(0),
            Event::SimulationStart { year_start: Year(1), warmup_years, analysis_years },
        );
    }

    /// Dispatch the next event, if the run has not stopped: take the earliest waiting
    /// event (the first scheduled among those of its day) and append it to the log.
    /// The run stops once the event budget is spent, when nothing is waiting, or when the
    /// next event lies beyond the horizon; then nothing changes and `false` is returned.
    pub fn advance(&mut self) -> (fired: bool)
        requires
            old(self).wf(),
        ensures
            final(self).wf(),
            fired == {
                &&& !(old(self)@.max_events matches Some(m) && old(self)@.log.len() >= m)
                &&& old(self)@.queue.len() > 0
                &&& !(old(self)@.max_day matches Some(h) && old(self)@.queue.last().day.0 > h.0)
            },
            fired ==> {
                let ev = old(self)@.queue.last();
                &&& final(self)@ == (SchedulerView {
                    queue: old(self)@.queue.drop_last(),
                    log: old(self)@.log.push(ev),
                    now: ev.day.0,
                    ..old(self)@
                })
                &&& forall|i: int| 0 <= i < old(self)@.queue.len() ==> ev.day.0 <= (#[trigger] old(self)@.queue[i]).day.0
            },
            !fired ==> final(self)@ == old(self)@,
    {
        match self.max_events {
            Some(m) => {
                if self.log.len() >= m {
                    return false;
                }
            },
            None => {},
        }
        let n = self.queue.len();
        if n == 0 {
            return false;
        }
        let next_day = self.queue[n - 1].day;
        match self.max_day {
            Some(h) => {
                if next_day.0 > h.0 {
                    return false;
                }
            },
            None => {},
        }
        let ghost q = self.queue@;
        let ghost old_log = self.log@;
        let ev = self.queue.pop().unwrap();
        proof {
            assert(ev == q.last());
            assert(self.queue@ =~= q.drop_last());
            assert forall|i: int| 0 <= i < q.len() implies ev.day.0 <= (#[trigger] q[i]).day.0 by {
                if i < q.len() - 1 {
                    assert(latest_first(q));
                    assert(q[i].day.0 >= q[q.len() - 1].day.0);
                }
            }
            if self.causal@ {
                assert(ev.day.0 >= self.now) by {
                    assert(q[q.len() - 1] == ev);
                }
                if old_log.len() > 0 {
                    assert(old_log.last().day.0 == self.now);
                }
            }
        }
        let ev_day = ev.day.0;
        self.log.push(ev);
        self.now = ev_day;
        proof {
            let new_now = ev.day.0;
            if self.causal@ {
                assert forall|i: int, j: int| 0 <= i < j < self.log@.len() implies (#[trigger] self.log@[i]).day.0
                    <= (#[trigger] self.log@[j]).day.0 by {
                    if j == self.log@.len() - 1 {
                        assert(self.log@[j] == ev);
                        if old_log.len() > 0 {
                            assert(old_log[i].day.0 <= old_log[old_log.len() - 1].day.0);
                        }
                    } else {
                        assert(self.log@[i] == old_log[i] && self.log@[j] == old_log[j]);
                    }
                }
                assert forall|i: int| 0 <= i < self.queue@.len() implies (#[trigger] self.queue@[i]).day.0 >= new_now by {
                    assert(self.queue@[i] == q[i]);
                }
            }
        }
        true
    }
}

/// When every event has been scheduled no earlier than the day being dispatched, the
/// log comes out in day order.
pub proof fn lemma_causal_log_is_day_ordered(s: &Scheduler)
    requires
        s.wf(),
        s@.causal,
    ensures
        day_ordered(s@.log),
{
}

} // verus!
