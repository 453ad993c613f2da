//! An insurer's book: capital (premiums credited, claims paid out of it, never
//! below zero, profit distributed), insolvency, the live windstorm aggregate, and the
//! gating of quote requests against its limits. The prices and the limits themselves
//! come from the insurer's pricing (floating-point actuarial and underwriting
//! channels), which hands the book the amounts it computed.
use std::collections::HashMap;

use vstd::prelude::*;

use crate::events::{covers_peril, DeclineReason, Event, Peril, Risk, RiskView};
use crate::types::{Day, InsuredId, InsurerId, PolicyId, SubmissionId, YearAccumulator};

verus! {

broadcast use vstd::std_specs::hash::group_hash_axioms;

/// The abstract state of an insurer.
pub struct InsurerView {
    pub id: InsurerId,
    /// Current capital (cents).
    pub capital: i64,
    /// Set the first time the insurer is found unable to write business.
    pub insolvent: bool,
    /// Year-to-date premium, claims and exposure.
    pub ytd: YearAccumulator,
    /// Live WindstormAtlantic aggregate sum insured.
    pub cat_aggregate: u64,
    /// Per policy, the windstorm exposure it added (released at expiry).
    pub cat_shares: Map<u64, u64>,
    /// Capital at construction.
    pub initial_capital: i64,
    /// Net premium credited to capital since construction.
    pub credited: int,
    /// Claims paid out of capital since construction.
    pub paid: int,
    /// Profit distributed to Names out of capital since construction.
    pub distributed: int,
    /// Number of `InsurerInsolvent` notices issued so far.
    pub notices: nat,
}

/// An insurer: its capital, exposure and standing in the market.
pub struct Insurer {
    id: InsurerId,
    capital: i64,
    insolvent: bool,
    ytd: YearAccumulator,
    cat_aggregate: u64,
    cat_policy_map: HashMap<u64, u64>,
    initial_capital: i64,
    credited: Ghost<int>,
    paid: Ghost<int>,
    distributed: Ghost<int>,
    notices: Ghost<nat>,
}

/// What a claim of `amount` takes out of `capital`: all of it if capital allows,
/// never more than the (non-negative part of the) capital.
pub open spec fn payable(capital: i64, amount: u64) -> u64 {
    let available: int = if capital > 0 {
        capital as int
    } else {
        0
    };
    if (amount as int) < available {
        amount
    } else {
        available as u64
    }
}

/// An amount of capital as events report it: floored at zero.
pub open spec fn floored(capital: i64) -> u64 {
    if capital > 0 {
        capital as u64
    } else {
        0
    }
}

impl View for Insurer {
    type V = InsurerView;

    closed spec fn view(&self) -> InsurerView {
        InsurerView {
            id: self.id,
            capital: self.capital,
            insolvent: self.insolvent,
            ytd: self.ytd,
            cat_aggregate: self.cat_aggregate,
            cat_shares: self.cat_policy_map@,
            initial_capital: self.initial_capital,
            credited: self.credited@,
            paid: self.paid@,
            distributed: self.distributed@,
            notices: self.notices@,
        }
    }
}

impl InsurerView {
    /// Capital is reconstructed from the history: the initial endowment plus net
    /// premiums credited, less claims paid.
    pub open spec fn balanced(self) -> bool {
        self.capital == self.initial_capital + self.credited - self.paid - self.distributed
    }
}

/// The insurer's answer to a lead quote request: see `Insurer::on_lead_quote_requested`.
pub open spec fn quote_answer(
    b: InsurerView,
    submission_id: SubmissionId,
    insured_id: InsuredId,
    risk: RiskView,
    line_limit: Option<u64>,
    cat_limit: Option<u64>,
    atp: u64,
    premium: u64,
) -> Event {
    if b.insolvent {
        Event::LeadQuoteDeclined {
            submission_id,
            insured_id,
            insurer_id: b.id,
            reason: DeclineReason::Insolvent,
        }
    } else if line_limit matches Some(l) && risk.sum_insured > l {
        Event::LeadQuoteDeclined {
            submission_id,
            insured_id,
            insurer_id: b.id,
            reason: DeclineReason::MaxLineSizeExceeded,
        }
    } else if cat_limit matches Some(l) && risk.perils_covered.contains(
        Peril::WindstormAtlantic,
    ) && b.cat_aggregate + risk.sum_insured > l {
        Event::LeadQuoteDeclined {
            submission_id,
            insured_id,
            insurer_id: b.id,
            reason: DeclineReason::MaxCatAggregateBreached,
        }
    } else {
        Event::LeadQuoteIssued {
            submission_id,
            insured_id,
            insurer_id: b.id,
            atp,
            premium,
            cat_exposure_at_quote: if risk.perils_covered.contains(Peril::WindstormAtlantic) {
                b.cat_aggregate
            } else {
                0
            },
        }
    }
}

/// The book after binding a policy: see `Insurer::on_policy_bound`.
pub open spec fn booked(old: InsurerView, new: InsurerView, policy_id: PolicyId, premium: u64, net_premium: i64, exposure: u64, perils: Seq<Peril>) -> bool {
    &&& new.capital == old.capital + net_premium
    &&& new.credited == old.credited + net_premium
    &&& new.ytd == (YearAccumulator {
        premium: (old.ytd.premium + premium) as u64,
        exposure: (old.ytd.exposure + exposure) as u64,
        ..old.ytd
    })
    &&& perils.contains(Peril::WindstormAtlantic) ==> new.cat_aggregate == old.cat_aggregate
        + exposure && new.cat_shares == old.cat_shares.insert(policy_id.0, exposure)
    &&& !perils.contains(Peril::WindstormAtlantic) ==> new.cat_aggregate == old.cat_aggregate
        && new.cat_shares == old.cat_shares
    &&& new.id == old.id
    &&& new.insolvent == old.insolvent
    &&& new.initial_capital == old.initial_capital
    &&& new.paid == old.paid
    &&& new.distributed == old.distributed
    &&& new.notices == old.notices
}

/// The book after a policy expired: see `Insurer::on_policy_expired`.
pub open spec fn released(old: InsurerView, new: InsurerView, policy_id: PolicyId) -> bool {
    &&& old.cat_shares.contains_key(policy_id.0) ==> {
        let share = old.cat_shares[policy_id.0];
        &&& new.cat_aggregate == if old.cat_aggregate >= share {
            old.cat_aggregate - share
        } else {
            0
        }
        &&& new.cat_shares == old.cat_shares.remove(policy_id.0)
    }
    &&& !old.cat_shares.contains_key(policy_id.0) ==> new.cat_aggregate == old.cat_aggregate
        && new.cat_shares == old.cat_shares
    &&& new.capital == old.capital
    &&& new.ytd == old.ytd
    &&& new.insolvent == old.insolvent
    &&& new.id == old.id
    &&& new.initial_capital == old.initial_capital
    &&& new.credited == old.credited
    &&& new.paid == old.paid
    &&& new.distributed == old.distributed
    &&& new.notices == old.notices
}

/// The book after paying a claim, with the notice it issued: see `Insurer::on_claim_settled`.
pub open spec fn claim_paid(old: InsurerView, new: InsurerView, day: Day, amount: u64, peril: Peril, r: Seq<(Day, Event)>) -> bool {
    &&& ({
        let pay = payable(old.capital, amount);
        &&& new.capital == old.capital - pay
        &&& new.paid == old.paid + pay
        &&& new.ytd.total_claims == old.ytd.total_claims + pay
        &&& new.ytd.attritional_claims == if peril == Peril::Attritional {
            old.ytd.attritional_claims + pay
        } else {
            old.ytd.attritional_claims as int
        }
    })
    &&& new.ytd.premium == old.ytd.premium
    &&& new.ytd.exposure == old.ytd.exposure
    &&& new.insolvent == (old.insolvent || new.capital == 0)
    &&& r == if new.capital == 0 && !old.insolvent {
        seq![(day, Event::InsurerInsolvent { insurer_id: old.id })]
    } else {
        Seq::<(Day, Event)>::empty()
    }
    &&& new.notices == old.notices + r.len()
    &&& new.cat_aggregate == old.cat_aggregate
    &&& new.cat_shares == old.cat_shares
    &&& new.id == old.id
    &&& new.initial_capital == old.initial_capital
    &&& new.credited == old.credited
    &&& new.distributed == old.distributed
}

/// The book after closing its year: see `Insurer::close_year`.
pub open spec fn year_closed(old: InsurerView, new: InsurerView, day: Day, r: Seq<(Day, Event)>) -> bool {
    &&& r == seq![
        (
            day,
            Event::YearEndCapital {
                insurer_id: old.id,
                capital: floored(old.capital),
                initial_capital: floored(old.initial_capital),
                ytd_premium: old.ytd.premium,
                ytd_claims: old.ytd.total_claims,
            },
        ),
    ]
    &&& new.ytd.is_zero()
    &&& new.capital == old.capital
    &&& new.insolvent == old.insolvent
    &&& new.cat_aggregate == old.cat_aggregate
    &&& new.cat_shares == old.cat_shares
    &&& new.id == old.id
    &&& new.initial_capital == old.initial_capital
    &&& new.credited == old.credited
    &&& new.paid == old.paid
    &&& new.distributed == old.distributed
    &&& new.notices == old.notices
}

/// The book after a profit distribution was considered: see `Insurer::distribute_profit`.
pub open spec fn profit_paid(old: InsurerView, new: InsurerView, day: Day, distributable: u64, floor: i64, r: Seq<(Day, Event)>) -> bool {
    let paid = !old.insolvent && distributable > 0 && old.capital - distributable >= floor;
    &&& paid ==> new.capital == old.capital - distributable
        && new.distributed == old.distributed + distributable
        && r == seq![
            (
                day,
                Event::CapitalDistributed {
                    insurer_id: old.id,
                    amount: distributable,
                    remaining_capital: floored(new.capital),
                },
            ),
        ]
    &&& !paid ==> new.capital == old.capital
        && new.distributed == old.distributed
        && r.len() == 0
    &&& new.ytd == old.ytd
    &&& new.insolvent == old.insolvent
    &&& new.cat_aggregate == old.cat_aggregate
    &&& new.cat_shares == old.cat_shares
    &&& new.id == old.id
    &&& new.initial_capital == old.initial_capital
    &&& new.credited == old.credited
    &&& new.paid == old.paid
    &&& new.notices == old.notices
}

/// The book after checking it can still write: see `Insurer::check_writable`.
pub open spec fn writability_checked(old: InsurerView, new: InsurerView, day: Day, max_line: Option<u64>, min_sum_insured: u64, r: Seq<(Day, Event)>) -> bool {
    &&& r == if (max_line matches Some(m) && m < min_sum_insured) && !old.insolvent {
        seq![(day, Event::InsurerInsolvent { insurer_id: old.id })]
    } else {
        Seq::<(Day, Event)>::empty()
    }
    &&& new.insolvent == (old.insolvent || r.len() == 1)
    &&& new.notices == old.notices + r.len()
    &&& new.capital == old.capital
    &&& new.ytd == old.ytd
    &&& new.cat_aggregate == old.cat_aggregate
    &&& new.cat_shares == old.cat_shares
    &&& new.id == old.id
    &&& new.initial_capital == old.initial_capital
    &&& new.credited == old.credited
    &&& new.paid == old.paid
    &&& new.distributed == old.distributed
}

impl Insurer {
    /// The book's invariant: capital reconciles with its history, and at most one
    /// insolvency notice has been issued, exactly when the insurer is insolvent.
    pub closed spec fn wf(&self) -> bool {
        &&& self@.balanced()
        &&& self.notices@ <= 1
        &&& (self.notices@ == 1 <==> self.insolvent)
    }

    /// A solvent book endowed with `initial_capital`.
    pub fn new(id: InsurerId, initial_capital: i64) -> (l: Insurer)
        ensures
            l.wf(),
            l@.id == id,
            l@.capital == initial_capital,
            l@.initial_capital == initial_capital,
            !l@.insolvent,
            l@.ytd.is_zero(),
            l@.cat_aggregate == 0,
            l@.cat_shares.is_empty(),
            l@.credited == 0,
            l@.paid == 0,
            l@.distributed == 0,
            l@.notices == 0,
    {
        Insurer {
            id,
            capital: initial_capital,
            insolvent: false,
            ytd: YearAccumulator::new(),
            cat_aggregate: 0,
            cat_policy_map: HashMap::new(),
            initial_capital,
            credited: Ghost(0),
            paid: Ghost(0),
            distributed: Ghost(0),
            notices: Ghost(0),
        }
    }

    pub fn id(&self) -> (r: InsurerId)
        ensures
            r == self@.id,
    {
        self.id
    }

    pub fn capital(&self) -> (r: i64)
        ensures
            r == self@.capital,
    {
        self.capital
    }

    /// Capital floored at zero, as reported in events.
    pub fn reported_capital(&self) -> (r: u64)
        ensures
            r == if self@.capital > 0 {
                self@.capital as u64
            } else {
                0
            },
    {
        if self.capital > 0 {
            self.capital as u64
        } else {
            0
        }
    }

    pub fn initial_capital(&self) -> (r: i64)
        ensures
            r == self@.initial_capital,
    {
        self.initial_capital
    }

    pub fn is_insolvent(&self) -> (r: bool)
        ensures
            r == self@.insolvent,
    {
        self.insolvent
    }

    pub fn cat_aggregate(&self) -> (r: u64)
        ensures
            r == self@.cat_aggregate,
    {
        self.cat_aggregate
    }

    pub fn year_to_date(&self) -> (r: YearAccumulator)
        ensures
            r == self@.ytd,
    {
        self.ytd
    }

    /// Called at each YearStart. Capital is not reset: it persists from the prior year.
    pub fn on_year_start(&mut self)
        ensures
            final(self)@ == old(self)@,
    {
    }

    /// Answer a lead quote request. An insolvent insurer declines; so does one whose
    /// single-risk limit (`line_limit`, if any) is below the sum insured, or whose
    /// windstorm limit (`cat_limit`, if any) the risk would breach. Otherwise it issues
    /// the quote priced at `atp` and `premium`, reporting its windstorm aggregate before
    /// the risk when the risk covers windstorm.
    pub fn on_lead_quote_requested(
        &self,
        day: Day,
        submission_id: SubmissionId,
        insured_id: InsuredId,
        risk: &Risk,
        line_limit: Option<u64>,
        cat_limit: Option<u64>,
        atp: u64,
        premium: u64,
    ) -> (r: Vec<(Day, Event)>)
        requires
            cat_limit is Some && risk.perils_covered@.contains(Peril::WindstormAtlantic)
                ==> self@.cat_aggregate + risk.sum_insured <= u64::MAX,
        ensures
            r@.len() == 1,
            r@[0].0 == day,
            r@[0].1 == quote_answer(self@, submission_id, insured_id, risk@, line_limit, cat_limit, atp, premium),
            !self@.insolvent && !(line_limit is Some && risk.sum_insured > line_limit->0)
                && risk.perils_covered@.contains(Peril::WindstormAtlantic) && cat_limit is Some
                && self@.cat_aggregate + risk.sum_insured > cat_limit->0 ==> r@[0].1 == (Event::LeadQuoteDeclined {
                submission_id,
                insured_id,
                insurer_id: self@.id,
                reason: DeclineReason::MaxCatAggregateBreached,
            }),
            !self@.insolvent && !(line_limit is Some && risk.sum_insured > line_limit->0) && !(cat_limit is Some
                && risk.perils_covered@.contains(Peril::WindstormAtlantic) && self@.cat_aggregate + risk.sum_insured
                > cat_limit->0) ==> (r@[0].1 is LeadQuoteIssued),
            (r@[0].1 is LeadQuoteIssued) ==> !self@.insolvent && !(line_limit is Some && risk.sum_insured
                > line_limit->0) && (cat_limit is Some && risk.perils_covered@.contains(Peril::WindstormAtlantic)
                ==> self@.cat_aggregate + risk.sum_insured <= cat_limit->0),
    {
        let mut r: Vec<(Day, Event)> = Vec::new();
        if self.insolvent {
            r.push(
                (
                    day,
                    Event::LeadQuoteDeclined {
                        submission_id,
                        insured_id,
                        insurer_id: self.id,
                        reason: DeclineReason::Insolvent,
                    },
                ),
            );
            return r;
        }
        match line_limit {
            Some(l) => {
                if risk.sum_insured > l {
                    r.push(
                        (
                            day,
                            Event::LeadQuoteDeclined {
                                submission_id,
                                insured_id,
                                insurer_id: self.id,
                                reason: DeclineReason::MaxLineSizeExceeded,
                            },
                        ),
                    );
                    return r;
                }
            },
            None => {},
        }
        let covers_cat = covers_peril(&risk.perils_covered, Peril::WindstormAtlantic);
        match cat_limit {
            Some(l) => {
                if covers_cat && self.cat_aggregate + risk.sum_insured > l {
                    r.push(
                        (
                            day,
                            Event::LeadQuoteDeclined {
                                submission_id,
                                insured_id,
                                insurer_id: self.id,
                                reason: DeclineReason::MaxCatAggregateBreached,
                            },
                        ),
                    );
                    return r;
                }
            },
            None => {},
        }
        let cat_exposure_at_quote = if covers_cat {
            self.cat_aggregate
        } else {
            0
        };
        r.push(
            (
                day,
                Event::LeadQuoteIssued {
                    submission_id,
                    insured_id,
                    insurer_id: self.id,
                    atp,
                    premium,
                    cat_exposure_at_quote,
                },
            ),
        );
        r
    }

    /// A policy has been bound. Credit the net premium to capital, accumulate the written
    /// premium and exposure for the year, and, for a windstorm risk, add its exposure to
    /// the live aggregate and remember it for release at expiry.
    pub fn on_policy_bound(
        &mut self,
        policy_id: PolicyId,
        premium: u64,
        net_premium: i64,
        exposure: u64,
        perils: &Vec<Peril>,
    )
        requires
            old(self).wf(),
            old(self)@.capital + net_premium <= i64::MAX,
            old(self)@.capital + net_premium >= i64::MIN,
            old(self)@.ytd.premium + premium <= u64::MAX,
            old(self)@.ytd.exposure + exposure <= u64::MAX,
            perils@.contains(Peril::WindstormAtlantic) ==> old(self)@.cat_aggregate + exposure <= u64::MAX,
        ensures
            final(self).wf(),
            booked(old(self)@, final(self)@, policy_id, premium, net_premium, exposure, perils@),
    {
        self.capital = self.capital + net_premium;
        proof {
            self.credited@ = self.credited@ + net_premium;
        }
        self.ytd.exposure = self.ytd.exposure + exposure;
        self.ytd.premium = self.ytd.premium + premium;
        if covers_peril(perils, Peril::WindstormAtlantic) {
            self.cat_aggregate = self.cat_aggregate + exposure;
            self.cat_policy_map.insert(policy_id.0, exposure);
        }
    }

    /// A policy has expired. Release its windstorm contribution, if it made one.
    pub fn on_policy_expired(&mut self, policy_id: PolicyId)
        requires
            old(self).wf(),
        ensures
            final(self).wf(),
            released(old(self)@, final(self)@, policy_id),
    {
        let ghost before = self.cat_policy_map@;
        match self.cat_policy_map.remove(&policy_id.0) {
            Some(share) => {
                self.cat_aggregate = if self.cat_aggregate >= share {
                    self.cat_aggregate - share
                } else {
                    0
                };
            },
            None => {
                proof {
                    assert(self.cat_policy_map@ =~= before);
                }
            },
        }
    }

    /// Mark the insurer insolvent. The first time, this issues the `InsurerInsolvent`
    /// notice; afterwards it does nothing.
    pub fn declare_insolvent(&mut self, day: Day) -> (r: Vec<(Day, Event)>)
        requires
            old(self).wf(),
        ensures
            final(self).wf(),
            final(self)@.insolvent,
            r@ == if old(self)@.insolvent {
                Seq::<(Day, Event)>::empty()
            } else {
                seq![(day, Event::InsurerInsolvent { insurer_id: old(self)@.id })]
            },
            final(self)@.notices == old(self)@.notices + r@.len(),
            final(self)@.capital == old(self)@.capital,
            final(self)@.ytd == old(self)@.ytd,
            final(self)@.cat_aggregate == old(self)@.cat_aggregate,
            final(self)@.cat_shares == old(self)@.cat_shares,
            final(self)@.id == old(self)@.id,
            final(self)@.initial_capital == old(self)@.initial_capital,
            final(self)@.credited == old(self)@.credited,
            final(self)@.paid == old(self)@.paid,
            final(self)@.distributed == old(self)@.distributed,
    {
        let mut r: Vec<(Day, Event)> = Vec::new();
        if !self.insolvent {
            self.insolvent = true;
            proof {
                self.notices@ = self.notices@ + 1;
            }
            r.push((day, Event::InsurerInsolvent { insurer_id: self.id }));
        }
        r
    }

    /// Pay a settled claim out of capital, never taking capital below zero. Attritional
    /// claims also count toward the year's attritional experience. The first time a claim
    /// leaves capital at exactly zero, the insurer becomes insolvent and says so.
    pub fn on_claim_settled(&mut self, day: Day, amount: u64, peril: Peril) -> (r: Vec<(Day, Event)>)
        requires
            old(self).wf(),
            old(self)@.ytd.total_claims + payable(old(self)@.capital, amount) <= u64::MAX,
            peril == Peril::Attritional ==> old(self)@.ytd.attritional_claims + payable(old(self)@.capital, amount)
                <= u64::MAX,
        ensures
            final(self).wf(),
            claim_paid(old(self)@, final(self)@, day, amount, peril, r@),
    {
        let available: u64 = if self.capital > 0 {
            self.capital as u64
        } else {
            0
        };
        let pay = if amount < available {
            amount
        } else {
            available
        };
        self.capital = self.capital - pay as i64;
        proof {
            self.paid@ = self.paid@ + pay;
        }
        if peril == Peril::Attritional {
            self.ytd.attritional_claims = self.ytd.attritional_claims + pay;
        }
        self.ytd.total_claims = self.ytd.total_claims + pay;
        if self.capital == 0 {
            self.declare_insolvent(day)
        } else {
            Vec::new()
        }
    }

    /// Close the year: report the year-end position (capital, initial capital, the
    /// year's premium and claims) and start the next year's figures at zero.
    pub fn close_year(&mut self, day: Day) -> (r: Vec<(Day, Event)>)
        requires
            old(self).wf(),
        ensures
            final(self).wf(),
            year_closed(old(self)@, final(self)@, day, r@),
    {
        let report = Event::YearEndCapital {
            insurer_id: self.id,
            capital: self.reported_capital(),
            initial_capital: if self.initial_capital > 0 {
                self.initial_capital as u64
            } else {
                0
            },
            ytd_premium: self.ytd.premium,
            ytd_claims: self.ytd.total_claims,
        };
        self.ytd.reset();
        let mut r: Vec<(Day, Event)> = Vec::new();
        r.push((day, report));
        r
    }

    /// The year's underwriting profit: the net premium written this year (premium less
    /// expenses, as priced by the caller) less the year's claims, floored at zero.
    pub fn year_profit(&self, net_written: u64) -> (r: u64)
        ensures
            r == if net_written > self@.ytd.total_claims {
                (net_written - self@.ytd.total_claims) as u64
            } else {
                0
            },
    {
        net_written.saturating_sub(self.ytd.total_claims)
    }

    /// Pay `distributable` out of capital to Names, if the insurer is solvent, the amount
    /// is positive, and capital after the payment stays at or above `floor`; the payment
    /// is announced the same day with the capital it leaves. Otherwise nothing happens.
    pub fn distribute_profit(&mut self, day: Day, distributable: u64, floor: i64) -> (r: Vec<(Day, Event)>)
        requires
            old(self).wf(),
        ensures
            final(self).wf(),
            profit_paid(old(self)@, final(self)@, day, distributable, floor, r@),
    {
        let mut r: Vec<(Day, Event)> = Vec::new();
        if self.insolvent || distributable == 0 {
            return r;
        }
        // Compare in i128 so that neither the amount nor the difference can overflow.
        let after: i128 = self.capital as i128 - distributable as i128;
        if after < floor as i128 {
            return r;
        }
        self.capital = after as i64;
        proof {
            self.distributed@ = self.distributed@ + distributable;
        }
        r.push(
            (
                day,
                Event::CapitalDistributed {
                    insurer_id: self.id,
                    amount: distributable,
                    remaining_capital: self.reported_capital(),
                },
            ),
        );
        r
    }

    /// An insurer with capital left whose single-risk limit `max_line` has fallen below
    /// the smallest sum insured on offer can no longer write business: it is marked
    /// insolvent (with its one notice). With no line limit, or when already insolvent,
    /// nothing changes.
    pub fn check_writable(&mut self, day: Day, max_line: Option<u64>, min_sum_insured: u64) -> (r: Vec<(Day, Event)>)
        requires
            old(self).wf(),
        ensures
            final(self).wf(),
            writability_checked(old(self)@, final(self)@, day, max_line, min_sum_insured, r@),
    {
        if self.insolvent {
            return Vec::new();
        }
        match max_line {
            Some(m) => {
                if m < min_sum_insured {
                    self.declare_insolvent(day)
                } else {
                    Vec::new()
                }
            },
            None => Vec::new(),
        }
    }
}

/// The windstorm limit caps the live aggregate, not each risk alone: a solvent insurer,
/// within its single-risk limit, declines a windstorm risk for breaching its windstorm
/// limit exactly when what it already carries plus the risk's sum insured exceeds the
/// limit; so after it has bound windstorm exposure, a risk it would have taken alone is
/// declined once the two together exceed the limit.
pub proof fn lemma_cat_limit_counts_live_aggregate(
    before: InsurerView,
    after: InsurerView,
    policy_id: PolicyId,
    premium: u64,
    net_premium: i64,
    exposure: u64,
    perils: Seq<Peril>,
    submission_id: SubmissionId,
    insured_id: InsuredId,
    risk: RiskView,
    line_limit: Option<u64>,
    limit: u64,
    atp: u64,
    quoted: u64,
)
    requires
        booked(before, after, policy_id, premium, net_premium, exposure, perils),
        perils.contains(Peril::WindstormAtlantic),
        risk.perils_covered.contains(Peril::WindstormAtlantic),
        !after.insolvent,
        !(line_limit is Some && risk.sum_insured > line_limit->0),
    ensures
        after.cat_aggregate == before.cat_aggregate + exposure,
        (quote_answer(after, submission_id, insured_id, risk, line_limit, Some(limit), atp, quoted)
            is LeadQuoteDeclined) <==> (before.cat_aggregate + exposure + risk.sum_insured > limit),
        before.cat_aggregate + exposure + risk.sum_insured > limit ==> quote_answer(
            after,
            submission_id,
            insured_id,
            risk,
            line_limit,
            Some(limit),
            atp,
            quoted,
        ) == (Event::LeadQuoteDeclined {
            submission_id,
            insured_id,
            insurer_id: after.id,
            reason: DeclineReason::MaxCatAggregateBreached,
        }),
{
}

/// An insurer's book always reconciles: its capital equals the initial endowment
/// plus the net premiums credited, less the claims paid and the profit distributed,
/// and it has issued at most one insolvency notice, exactly when it is insolvent.
pub proof fn lemma_capital_reconciles(l: &Insurer)
    requires
        l.wf(),
    ensures
        l@.capital == l@.initial_capital + l@.credited - l@.paid - l@.distributed,
        l@.notices <= 1,
        l@.notices == 1 <==> l@.insolvent,
{
}

/// Claims never take capital below zero: paying a claim from a book whose capital is not
/// negative leaves capital not negative, and the amount paid never exceeds the claim.
pub proof fn lemma_claims_never_overdraw(capital: i64, amount: u64)
    requires
        capital >= 0,
    ensures
        capital - payable(capital, amount) >= 0,
        payable(capital, amount) <= amount,
        payable(capital, amount) == amount || capital - payable(capital, amount) == 0,
{
}

} // verus!
