//! The broker: routes each coverage request to a ranked list of insurers, asks
//! the best-placed one to lead, retries down the list on a decline (same day),
//! presents the first issued quote to the insured the next day, and drops the
//! submission once every candidate has declined.
//!
//! Insurers are ranked by their standing with the broker (lower is better); ties
//! are broken round-robin, by cyclic distance from a start index that advances by
//! one with every request. The standing itself (relationship scores decayed each
//! year, net of declines) is supplied by the caller.
use std::collections::HashMap;

use vstd::prelude::*;

use crate::events::{Event, Risk};
use crate::types::{Day, InsuredId, InsurerId, SubmissionId};

verus! {

broadcast use vstd::std_specs::hash::group_hash_axioms;

/// A submission in flight.
pub struct PendingQuote {
    pub insured_id: InsuredId,
    pub risk: Risk,
    /// Candidate insurers, best first.
    pub candidates: Vec<InsurerId>,
    /// Index into `candidates` of the insurer currently asked to lead.
    pub lead_idx: usize,
}

/// The broker's abstract state.
pub struct BrokerView {
    pub insurer_ids: Seq<InsurerId>,
    pub quotes_per_submission: nat,
    pub next_insurer_idx: u64,
    pub next_submission_id: u64,
    pub pending: Map<u64, PendingQuote>,
    /// Declines received from each insurer (by position) since the last year end.
    pub decline_counts: Seq<u64>,
}

/// Routes coverage requests to insurers and tracks submissions in flight.
pub struct Broker {
    insurer_ids: Vec<InsurerId>,
    quotes_per_submission: usize,
    next_insurer_idx: u64,
    next_submission_id: u64,
    pending: HashMap<u64, PendingQuote>,
    decline_counts: Vec<u64>,
}

impl View for Broker {
    type V = BrokerView;

    closed spec fn view(&self) -> BrokerView {
        BrokerView {
            insurer_ids: self.insurer_ids@,
            quotes_per_submission: self.quotes_per_submission as nat,
            next_insurer_idx: self.next_insurer_idx,
            next_submission_id: self.next_submission_id,
            pending: self.pending@,
            decline_counts: self.decline_counts@,
        }
    }
}

/// How far index `i` lies after `start`, going round a ring of `n` places.
pub open spec fn cyclic_distance(n: int, start: int, i: int) -> int {
    if i >= start {
        i - start
    } else {
        i + n - start
    }
}

/// Insurer `a` ranks ahead of insurer `b`: better standing (lower value), or equal
/// standing and nearer after the round-robin start.
pub open spec fn precedes(standing: Seq<u64>, start: int, a: int, b: int) -> bool {
    ||| standing[a] < standing[b]
    ||| (standing[a] == standing[b] && cyclic_distance(standing.len() as int, start, a)
        < cyclic_distance(standing.len() as int, start, b))
}

/// `c` lists the `k` best-ranked of the indices `0..standing.len()`, best first.
pub open spec fn is_top_ranked(standing: Seq<u64>, start: int, k: int, c: Seq<usize>) -> bool {
    &&& c.len() == k
    &&& forall|i: int| 0 <= i < k ==> (#[trigger] c[i]) < standing.len()
    &&& forall|i: int, j: int| 0 <= i < j < k ==> precedes(standing, start, #[trigger] c[i] as int, #[trigger] c[j] as int)
    &&& forall|x: int, i: int|
        0 <= x < standing.len() && !c.contains(x as usize) && 0 <= i < k
            ==> #[trigger] precedes(standing, start, c[i] as int, x)
}

/// How many insurers a request solicits: the configured number, at most all of them,
/// at least one.
pub open spec fn solicit_count(quotes_per_submission: nat, n: nat) -> nat {
    let k = if quotes_per_submission < n {
        quotes_per_submission
    } else {
        n
    };
    if k < 1 {
        1
    } else {
        k
    }
}

/// The ranking is a strict total order on the indices of the ring.
proof fn lemma_precedes_total(standing: Seq<u64>, start: int, a: int, b: int)
    requires
        0 <= start < standing.len(),
        0 <= a < standing.len(),
        0 <= b < standing.len(),
    ensures
        a != b ==> precedes(standing, start, a, b) || precedes(standing, start, b, a),
        !precedes(standing, start, a, a),
        precedes(standing, start, a, b) ==> !precedes(standing, start, b, a),
{
}

proof fn lemma_precedes_transitive(standing: Seq<u64>, start: int, a: int, b: int, c: int)
    requires
        precedes(standing, start, a, b),
        precedes(standing, start, b, c),
    ensures
        precedes(standing, start, a, c),
{
}

/// Whether insurer `a` ranks ahead of insurer `b`.
fn ranks_ahead(standing: &Vec<u64>, start: usize, a: usize, b: usize) -> (r: bool)
    requires
        start < standing@.len(),
        a < standing@.len(),
        b < standing@.len(),
    ensures
        r == precedes(standing@, start as int, a as int, b as int),
{
    let n = standing.len();
    let da: usize = if a >= start {
        a - start
    } else {
        n - start + a
    };
    let db: usize = if b >= start {
        b - start
    } else {
        n - start + b
    };
    standing[a] < standing[b] || (standing[a] == standing[b] && da < db)
}

/// The `k` best-ranked insurer indices, best first, for a round-robin start of `start`.
pub fn top_ranked(standing: &Vec<u64>, start: usize, k: usize) -> (c: Vec<usize>)
    requires
        start < standing@.len(),
        k <= standing@.len(),
    ensures
        is_top_ranked(standing@, start as int, k as int, c@),
{
    let n = standing.len();
    // Insertion sort of all indices by rank.
    let mut sorted: Vec<usize> = Vec::new();
    let mut x: usize = 0;
    while x < n
        invariant
            n == standing@.len(),
            start < n,
            x <= n,
            sorted@.len() == x,
            forall|v: usize| sorted@.contains(v) <==> v < x,
            forall|i: int| 0 <= i < sorted@.len() ==> (#[trigger] sorted@[i]) < x,
            forall|i: int, j: int|
                0 <= i < j < sorted@.len() ==> precedes(standing@, start as int, #[trigger] sorted@[i] as int, #[trigger] sorted@[j] as int),
        decreases n - x,
    {
        let mut p: usize = 0;
        while p < sorted.len() && !ranks_ahead(standing, start, x, sorted[p])
            invariant
                n == standing@.len(),
                start < n,
                x < n,
                p <= sorted@.len(),
                sorted@.len() == x,
                forall|v: usize| sorted@.contains(v) <==> v < x,
                forall|i: int| 0 <= i < sorted@.len() ==> (#[trigger] sorted@[i]) < x,
                forall|i: int| 0 <= i < p ==> precedes(standing@, start as int, #[trigger] sorted@[i] as int, x as int),
            decreases sorted@.len() - p,
        {
            proof {
                assert(sorted@.contains(sorted@[p as int]));
                lemma_precedes_total(standing@, start as int, x as int, sorted@[p as int] as int);
            }
            p = p + 1;
        }
        let ghost old_sorted = sorted@;
        proof {
            assert forall|j: int| p <= j < old_sorted.len() implies precedes(standing@, start as int, x as int, #[trigger] old_sorted[j] as int) by {
                if j > p {
                    lemma_precedes_transitive(standing@, start as int, x as int, old_sorted[p as int] as int, old_sorted[j] as int);
                }
            }
        }
        sorted.insert(p, x);
        proof {
            assert(sorted@ == old_sorted.insert(p as int, x));
            old_sorted.insert_ensures(p as int, x);
            assert forall|i: int| 0 <= i < sorted@.len() implies (#[trigger] sorted@[i]) < x + 1 by {
                if i < p {
                } else if i > p {
                    assert(sorted@[i] == old_sorted[i - 1]);
                }
            }
            assert forall|v: usize| sorted@.contains(v) <==> v < x + 1 by {
                if v < x + 1 {
                    if v == x {
                        assert(sorted@[p as int] == v);
                    } else {
                        assert(old_sorted.contains(v));
                        let j = choose|j: int| 0 <= j < old_sorted.len() && old_sorted[j] == v;
                        if j < p {
                            assert(sorted@[j] == v);
                        } else {
                            assert(sorted@[j + 1] == v);
                        }
                    }
                } else if sorted@.contains(v) {
                    let j = choose|j: int| 0 <= j < sorted@.len() && sorted@[j] == v;
                    if j < p {
                        assert(old_sorted[j] == v);
                    } else if j > p {
                        assert(old_sorted[j - 1] == v);
                    }
                }
            }
            assert forall|i: int, j: int| 0 <= i < j < sorted@.len() implies precedes(standing@, start as int, #[trigger] sorted@[i] as int, #[trigger] sorted@[j] as int) by {
                if i < p && j < p {
                    assert(sorted@[i] == old_sorted[i] && sorted@[j] == old_sorted[j]);
                } else if i < p && j == p {
                } else if i < p {
                    assert(sorted@[i] == old_sorted[i] && sorted@[j] == old_sorted[j - 1]);
                } else if i == p {
                    assert(sorted@[j] == old_sorted[j - 1]);
                } else {
                    assert(sorted@[i] == old_sorted[i - 1] && sorted@[j] == old_sorted[j - 1]);
                }
            }
        }
        x = x + 1;
    }
    let ghost all = sorted@;
    sorted.truncate(k);
    proof {
        assert(sorted@ == all.take(k as int));
        assert forall|v: int, i: int|
            0 <= v < n && !sorted@.contains(v as usize) && 0 <= i < k implies #[trigger] precedes(standing@, start as int, sorted@[i] as int, v) by {
            assert(all.contains(v as usize));
            let j = choose|j: int| 0 <= j < all.len() && all[j] == v as usize;
            if j < k {
                assert(sorted@[j] == v as usize);
            }
            assert(sorted@[i] == all[i]);
        }
        assert forall|i: int| 0 <= i < k implies (#[trigger] sorted@[i]) < n by {
            assert(all.contains(all[i]));
        }
    }
    sorted
}

/// The insurer ids at the given indices, in order.
fn ids_at(ids: &Vec<InsurerId>, idx: &Vec<usize>) -> (r: Vec<InsurerId>)
    requires
        forall|i: int| 0 <= i < idx@.len() ==> (#[trigger] idx@[i]) < ids@.len(),
    ensures
        r@ == idx@.map_values(|j: usize| ids@[j as int]),
{
    let mut r: Vec<InsurerId> = Vec::new();
    let mut i: usize = 0;
    while i < idx.len()
        invariant
            i <= idx@.len(),
            forall|t: int| 0 <= t < idx@.len() ==> (#[trigger] idx@[t]) < ids@.len(),
            r@ == idx@.take(i as int).map_values(|j: usize| ids@[j as int]),
        decreases idx@.len() - i,
    {
        r.push(ids[idx[i]]);
        i = i + 1;
        proof {
            assert(idx@.take(i as int).drop_last() == idx@.take(i - 1));
        }
    }
    proof {
        assert(idx@.take(idx@.len() as int) == idx@);
    }
    r
}

/// The broker after routing a coverage request: see `Broker::on_coverage_requested`.
pub open spec fn routed(
    old: BrokerView,
    new: BrokerView,
    day: Day,
    insured_id: InsuredId,
    risk: Risk,
    standing: Seq<u64>,
    r: Seq<(Day, Event)>,
) -> bool {
    &&& old.insurer_ids.len() == 0 ==> r.len() == 0 && new == old
    &&& old.insurer_ids.len() > 0 ==> {
        let n = old.insurer_ids.len();
        let sid = old.next_submission_id;
        let p = new.pending[sid];
        &&& new == (BrokerView {
            next_insurer_idx: (old.next_insurer_idx + 1) as u64,
            next_submission_id: (sid + 1) as u64,
            pending: old.pending.insert(sid, p),
            ..old
        })
        &&& p.insured_id == insured_id
        &&& p.risk == risk
        &&& p.lead_idx == 0
        &&& exists|c: Seq<usize>|
            #[trigger] is_top_ranked(
                standing,
                (old.next_insurer_idx % (n as u64)) as int,
                solicit_count(old.quotes_per_submission, n) as int,
                c,
            ) && p.candidates@ == c.map_values(|j: usize| old.insurer_ids[j as int])
        &&& r.len() == 1
        &&& r[0].0 == Day((day.0 + 1) as u64)
        &&& r[0].1 matches Event::LeadQuoteRequested { submission_id: s, insured_id: i, insurer_id: l, risk: q }
            && s == SubmissionId(sid) && i == insured_id && l == p.candidates@[0] && q@ == risk@
    }
}

/// The broker after a lead's decline: see `Broker::on_lead_quote_declined`.
pub open spec fn declined(
    old: BrokerView,
    new: BrokerView,
    day: Day,
    submission_id: SubmissionId,
    insurer_id: InsurerId,
    r: Seq<(Day, Event)>,
) -> bool {
    &&& new.decline_counts == declines_after(old.insurer_ids, old.decline_counts, insurer_id)
    &&& new.insurer_ids == old.insurer_ids
    &&& new.quotes_per_submission == old.quotes_per_submission
    &&& new.next_insurer_idx == old.next_insurer_idx
    &&& new.next_submission_id == old.next_submission_id
    &&& !old.pending.contains_key(submission_id.0) ==> r.len() == 0 && new.pending == old.pending
    &&& old.pending.contains_key(submission_id.0) ==> {
        let p = old.pending[submission_id.0];
        let next = p.lead_idx + 1;
        if next >= p.candidates@.len() {
            &&& new.pending == old.pending.remove(submission_id.0)
            &&& r == seq![(day, Event::SubmissionDropped { submission_id, insured_id: p.insured_id })]
        } else {
            &&& new.pending == old.pending.insert(submission_id.0, PendingQuote { lead_idx: next as usize, ..p })
            &&& r.len() == 1
            &&& r[0].0 == day
            &&& r[0].1 matches Event::LeadQuoteRequested { submission_id: s, insured_id: i, insurer_id: l, risk: q }
                && s == submission_id && i == p.insured_id && l == p.candidates@[next] && q@ == p.risk@
        }
    }
}

/// The broker after its lead issued a quote: see `Broker::on_lead_quote_issued`.
pub open spec fn presented(
    old: BrokerView,
    new: BrokerView,
    day: Day,
    submission_id: SubmissionId,
    insurer_id: InsurerId,
    premium: u64,
    r: Seq<(Day, Event)>,
) -> bool {
    &&& !old.pending.contains_key(submission_id.0) ==> r.len() == 0 && new == old
    &&& old.pending.contains_key(submission_id.0) ==> {
        let p = old.pending[submission_id.0];
        &&& new == (BrokerView { pending: old.pending.remove(submission_id.0), ..old })
        &&& r == seq![
            (
                Day((day.0 + 1) as u64),
                Event::QuotePresented { submission_id, insured_id: p.insured_id, insurer_id, premium },
            ),
        ]
    }
}

impl Broker {
    /// The broker's invariant: one decline counter per insurer, and every submission in
    /// flight has a candidate list, a current lead within it, and an id already issued.
    pub closed spec fn wf(&self) -> bool {
        &&& self.decline_counts@.len() == self.insurer_ids@.len()
        &&& forall|sid: u64| #[trigger] self.pending@.contains_key(sid) ==> {
            &&& sid < self.next_submission_id
            &&& self.pending@[sid].lead_idx < self.pending@[sid].candidates@.len()
        }
    }

    /// A broker over the given insurers, soliciting `quotes_per_submission` of them per request.
    pub fn new(insurer_ids: Vec<InsurerId>, quotes_per_submission: usize) -> (b: Broker)
        ensures
            b.wf(),
            b@.insurer_ids == insurer_ids@,
            b@.quotes_per_submission == quotes_per_submission,
            b@.next_insurer_idx == 0,
            b@.next_submission_id == 0,
            b@.pending.is_empty(),
            b@.decline_counts == Seq::new(insurer_ids@.len(), |i: int| 0u64),
    {
        let mut decline_counts: Vec<u64> = Vec::new();
        let mut i: usize = 0;
        while i < insurer_ids.len()
            invariant
                i <= insurer_ids@.len(),
                decline_counts@ == Seq::new(i as nat, |i: int| 0u64),
            decreases insurer_ids@.len() - i,
        {
            decline_counts.push(0);
            i = i + 1;
        }
        Broker {
            insurer_ids,
            quotes_per_submission,
            next_insurer_idx: 0,
            next_submission_id: 0,
            pending: HashMap::new(),
            decline_counts,
        }
    }

    /// The insurers in the routing pool, in the order they joined.
    pub fn insurer_ids(&self) -> (r: &Vec<InsurerId>)
        ensures
            r@ == self@.insurer_ids,
    {
        &self.insurer_ids
    }

    /// Declines received from each insurer of the pool (by position) since the last year end.
    pub fn decline_counts(&self) -> (r: &Vec<u64>)
        ensures
            r@ == self@.decline_counts,
    {
        &self.decline_counts
    }

    /// The id the next submission will get.
    pub fn next_submission_id(&self) -> (r: SubmissionId)
        ensures
            r.0 == self@.next_submission_id,
    {
        SubmissionId(self.next_submission_id)
    }

    /// How many coverage requests have been routed so far (the round-robin cursor).
    pub fn requests_routed(&self) -> (r: u64)
        ensures
            r == self@.next_insurer_idx,
    {
        self.next_insurer_idx
    }

    /// Whether the submission is still in flight.
    pub fn is_pending(&self, submission_id: SubmissionId) -> (r: bool)
        ensures
            r == self@.pending.contains_key(submission_id.0),
    {
        self.pending.contains_key(&submission_id.0)
    }

    /// Add a new insurer to the routing pool, with no declines on record.
    pub fn add_insurer(&mut self, id: InsurerId)
        requires
            old(self).wf(),
        ensures
            final(self).wf(),
            final(self)@ == (BrokerView {
                insurer_ids: old(self)@.insurer_ids.push(id),
                decline_counts: old(self)@.decline_counts.push(0),
                ..old(self)@
            }),
    {
        self.insurer_ids.push(id);
        self.decline_counts.push(0);
    }

    /// Year ended: forget the year's declines.
    pub fn on_year_end(&mut self)
        requires
            old(self).wf(),
        ensures
            final(self).wf(),
            final(self)@ == (BrokerView {
                decline_counts: Seq::new(old(self)@.insurer_ids.len(), |i: int| 0u64),
                ..old(self)@
            }),
    {
        let n = self.decline_counts.len();
        let mut counts: Vec<u64> = Vec::new();
        let mut i: usize = 0;
        while i < n
            invariant
                i <= n,
                counts@ == Seq::new(i as nat, |i: int| 0u64),
            decreases n - i,
        {
            counts.push(0);
            i = i + 1;
        }
        self.decline_counts = counts;
    }

    /// An insured has requested coverage. Ranks the pool by `standing` (one value per
    /// insurer, lower is better; ties go round-robin from a start index that advances with
    /// every request), keeps the best `quotes_per_submission` as candidates (at least one,
    /// at most all), opens a submission with the next id, and asks the best candidate to
    /// lead the next day. With no insurers there is nothing to route to.
    pub fn on_coverage_requested(
        &mut self,
        day: Day,
        insured_id: InsuredId,
        risk: Risk,
        standing: &Vec<u64>,
    ) -> (r: Vec<(Day, Event)>)
        requires
            old(self).wf(),
            standing@.len() == old(self)@.insurer_ids.len(),
            old(self)@.next_insurer_idx < u64::MAX,
            old(self)@.next_submission_id < u64::MAX,
            day.0 < u64::MAX,
        ensures
            final(self).wf(),
            routed(old(self)@, final(self)@, day, insured_id, risk, standing@, r@),
    {
        let n = self.insurer_ids.len();
        if n == 0 {
            return Vec::new();
        }
        let k: usize = if self.quotes_per_submission < n {
            if self.quotes_per_submission < 1 {
                1
            } else {
                self.quotes_per_submission
            }
        } else {
            n
        };
        let start = (self.next_insurer_idx % (n as u64)) as usize;
        self.next_insurer_idx = self.next_insurer_idx + 1;
        let order = top_ranked(standing, start, k);
        let candidates = ids_at(&self.insurer_ids, &order);
        let submission_id = SubmissionId(self.next_submission_id);
        self.next_submission_id = self.next_submission_id + 1;
        proof {
            assert(is_top_ranked(standing@, start as int, k as int, order@));
            assert(k == solicit_count(old(self)@.quotes_per_submission, n as nat));
            assert(start == old(self)@.next_insurer_idx % (n as u64));
        }
        let leader_id = candidates[0];
        let request_risk = risk.clone();
        let ghost old_pending = self.pending@;
        self.pending.insert(
            submission_id.0,
            PendingQuote { insured_id, risk, candidates, lead_idx: 0 },
        );
        proof {
            assert(self.pending@.contains_key(submission_id.0));
            assert forall|sid: u64| #[trigger] self.pending@.contains_key(sid) implies {
                &&& sid < self.next_submission_id
                &&& self.pending@[sid].lead_idx < self.pending@[sid].candidates@.len()
            } by {
                if sid != submission_id.0 {
                    assert(old_pending.contains_key(sid));
                }
            }
        }
        let mut r: Vec<(Day, Event)> = Vec::new();
        r.push(
            (
                day.offset(1),
                Event::LeadQuoteRequested {
                    submission_id,
                    insured_id,
                    insurer_id: leader_id,
                    risk: request_risk,
                },
            ),
        );
        r
    }

    /// The lead declined. Count the decline against the insurer, then ask the next
    /// candidate to lead, the same day; once every candidate has declined, drop the
    /// submission. A submission no longer in flight produces nothing.
    pub fn on_lead_quote_declined(
        &mut self,
        day: Day,
        submission_id: SubmissionId,
        insurer_id: InsurerId,
    ) -> (r: Vec<(Day, Event)>)
        requires
            old(self).wf(),
        ensures
            final(self).wf(),
            declined(old(self)@, final(self)@, day, submission_id, insurer_id, r@),
    {
        self.record_decline(insurer_id);
        let ghost old_pending = self.pending@;
        let removed = self.pending.remove(&submission_id.0);
        match removed {
            None => {
                proof {
                    assert(self.pending@ =~= old_pending);
                }
                Vec::new()
            },
            Some(p) => {
                proof {
                    assert(old_pending.contains_key(submission_id.0));
                    assert(p == old_pending[submission_id.0]);
                }
                let len = p.candidates.len();
                let next = p.lead_idx + 1;
                if next >= len {
                    let mut r: Vec<(Day, Event)> = Vec::new();
                    r.push((day, Event::SubmissionDropped { submission_id, insured_id: p.insured_id }));
                    r
                } else {
                    let next_lead = p.candidates[next];
                    let request_risk = p.risk.clone();
                    let insured_id = p.insured_id;
                    let ghost p_old = p;
                    self.pending.insert(
                        submission_id.0,
                        PendingQuote { lead_idx: next, ..p },
                    );
                    proof {
                        assert(self.pending@ =~= old_pending.insert(
                            submission_id.0,
                            PendingQuote { lead_idx: next, ..p_old },
                        ));
                    }
                    let mut r: Vec<(Day, Event)> = Vec::new();
                    r.push(
                        (
                            day,
                            Event::LeadQuoteRequested {
                                submission_id,
                                insured_id,
                                insurer_id: next_lead,
                                risk: request_risk,
                            },
                        ),
                    );
                    r
                }
            },
        }
    }

    /// Count one decline against the first pool position holding `insurer_id`.
    fn record_decline(&mut self, insurer_id: InsurerId)
        requires
            old(self).wf(),
        ensures
            final(self).wf(),
            final(self)@ == (BrokerView {
                decline_counts: declines_after(
                    old(self)@.insurer_ids,
                    old(self)@.decline_counts,
                    insurer_id,
                ),
                ..old(self)@
            }),
    {
        let mut i: usize = 0;
        while i < self.insurer_ids.len()
            invariant
                i <= self.insurer_ids@.len(),
                self.insurer_ids@ == old(self)@.insurer_ids,
                self.decline_counts@ == old(self)@.decline_counts,
                self.decline_counts@.len() == self.insurer_ids@.len(),
                old(self).wf(),
                *self == *old(self),
                forall|j: int| 0 <= j < i ==> self.insurer_ids@[j] != insurer_id,
            decreases self.insurer_ids@.len() - i,
        {
            if self.insurer_ids[i] == insurer_id {
                let c = self.decline_counts[i];
                let bumped = c.saturating_add(1);
                self.decline_counts.set(i, bumped);
                proof {
                    assert(first_position(old(self)@.insurer_ids, insurer_id) == i as int) by {
                        lemma_first_position(old(self)@.insurer_ids, insurer_id, i as int);
                    }
                }
                return;
            }
            i = i + 1;
        }
        proof {
            lemma_first_position_absent(old(self)@.insurer_ids, insurer_id);
        }
    }

    /// The lead issued a quote: present it to the insured the next day, with the issuing
    /// insurer and its premium, and close the submission. A submission no longer in flight
    /// produces nothing.
    pub fn on_lead_quote_issued(
        &mut self,
        day: Day,
        submission_id: SubmissionId,
        insured_id: InsuredId,
        insurer_id: InsurerId,
        premium: u64,
    ) -> (r: Vec<(Day, Event)>)
        requires
            old(self).wf(),
            day.0 < u64::MAX,
        ensures
            final(self).wf(),
            presented(old(self)@, final(self)@, day, submission_id, insurer_id, premium, r@),
    {
        let ghost old_pending = self.pending@;
        match self.pending.remove(&submission_id.0) {
            None => {
                proof {
                    assert(self.pending@ =~= old_pending);
                }
                Vec::new()
            },
            Some(p) => {
                let mut r: Vec<(Day, Event)> = Vec::new();
                r.push(
                    (
                        day.offset(1),
                        Event::QuotePresented {
                            submission_id,
                            insured_id: p.insured_id,
                            insurer_id,
                            premium,
                        },
                    ),
                );
                r
            },
        }
    }
}

/// A request that solicits as many insurers as the pool holds solicits every one of them.
pub proof fn lemma_full_solicitation(standing: Seq<u64>, start: int, c: Seq<usize>)
    requires
        0 <= start < standing.len(),
        is_top_ranked(standing, start, standing.len() as int, c),
    ensures
        forall|x: int| 0 <= x < standing.len() ==> #[trigger] c.contains(x as usize),
{
    broadcast use vstd::set::group_set_axioms;
    let n = standing.len() as int;
    assert forall|x: int| 0 <= x < n implies #[trigger] c.contains(x as usize) by {
        if !c.contains(x as usize) {
            lemma_candidates_distinct(standing, start, n, c);
            let ci = c.map_values(|u: usize| u as int);
            assert(ci.no_duplicates()) by {
                assert forall|i: int, j: int| 0 <= i < ci.len() && 0 <= j < ci.len() && i != j implies ci[i] != ci[j] by {
                    assert(c[i] != c[j]);
                }
            }
            ci.unique_seq_to_set();
            let range = vstd::set_lib::set_int_range(0, n);
            vstd::set_lib::lemma_int_range(0, n);
            let rest = range.remove(x);
            assert(rest.len() == n - 1);
            assert forall|v: int| ci.to_set().contains(v) implies rest.contains(v) by {
                let i = choose|i: int| 0 <= i < ci.len() && ci[i] == v;
                assert(c[i] < n);
                if v == x {
                    assert(c[i] == x as usize);
                    assert(c.contains(x as usize));
                }
            }
            vstd::set_lib::lemma_len_subset(ci.to_set(), rest);
        }
    }
}

/// Among insurers of equal standing the lead goes round-robin: when every insurer stands
/// equal, the first candidate of a request is the one at the request's start index.
pub proof fn lemma_equal_standing_round_robin(standing: Seq<u64>, start: int, k: int, c: Seq<usize>)
    requires
        0 <= start < standing.len() <= usize::MAX,
        1 <= k,
        forall|i: int, j: int| 0 <= i < standing.len() && 0 <= j < standing.len() ==> standing[i] == standing[j],
        is_top_ranked(standing, start, k, c),
    ensures
        c[0] == start,
{
    if c[0] != start {
        if c.contains(start as usize) {
            let i = choose|i: int| 0 <= i < c.len() && c[i] == start as usize;
            assert(precedes(standing, start, c[0] as int, c[i] as int));
        } else {
            assert(precedes(standing, start, c[0] as int, start));
        }
    }
}

/// The insurer with strictly the best standing always leads.
pub proof fn lemma_best_standing_leads(standing: Seq<u64>, start: int, k: int, c: Seq<usize>, best: int)
    requires
        0 <= start < standing.len() <= usize::MAX,
        0 <= best < standing.len(),
        1 <= k,
        forall|j: int| 0 <= j < standing.len() && j != best ==> standing[best] < standing[j],
        is_top_ranked(standing, start, k, c),
    ensures
        c[0] == best,
{
    if c[0] != best {
        if c.contains(best as usize) {
            let i = choose|i: int| 0 <= i < c.len() && c[i] == best as usize;
            assert(precedes(standing, start, c[0] as int, c[i] as int));
        } else {
            assert(precedes(standing, start, c[0] as int, best));
        }
    }
}

/// A request never lists the same insurer position twice among its candidates.
pub proof fn lemma_candidates_distinct(standing: Seq<u64>, start: int, k: int, c: Seq<usize>)
    requires
        0 <= start < standing.len(),
        is_top_ranked(standing, start, k, c),
    ensures
        c.no_duplicates(),
{
    assert forall|i: int, j: int| 0 <= i < c.len() && 0 <= j < c.len() && i != j implies c[i] != c[j] by {
        if i < j {
            assert(precedes(standing, start, c[i] as int, c[j] as int));
        } else {
            assert(precedes(standing, start, c[j] as int, c[i] as int));
        }
    }
}

/// The first position of `id` in `ids`, or `ids.len()` when it is absent.
pub open spec fn first_position(ids: Seq<InsurerId>, id: InsurerId) -> int
    decreases ids.len(),
{
    if ids.len() == 0 {
        0
    } else if ids[0] == id {
        0
    } else {
        1 + first_position(ids.drop_first(), id)
    }
}

/// The decline counters after one decline from `id`: the counter at its first position
/// goes up by one (saturating); a decline from an insurer outside the pool is not counted.
pub open spec fn declines_after(ids: Seq<InsurerId>, counts: Seq<u64>, id: InsurerId) -> Seq<u64> {
    let i = first_position(ids, id);
    if i < ids.len() {
        counts.update(i, if counts[i] == u64::MAX {
            u64::MAX
        } else {
            (counts[i] + 1) as u64
        })
    } else {
        counts
    }
}

proof fn lemma_first_position(ids: Seq<InsurerId>, id: InsurerId, i: int)
    requires
        0 <= i < ids.len(),
        ids[i] == id,
        forall|j: int| 0 <= j < i ==> ids[j] != id,
    ensures
        first_position(ids, id) == i,
    decreases i,
{
    if i > 0 {
        lemma_first_position(ids.drop_first(), id, i - 1);
    }
}

proof fn lemma_first_position_absent(ids: Seq<InsurerId>, id: InsurerId)
    requires
        forall|j: int| 0 <= j < ids.len() ==> ids[j] != id,
    ensures
        first_position(ids, id) == ids.len(),
    decreases ids.len(),
{
    if ids.len() > 0 {
        lemma_first_position_absent(ids.drop_first(), id);
    }
}

} // verus!
