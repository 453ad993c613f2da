use vstd::prelude::*;

use vstd::std_specs::iter::IteratorSpec;

use crate::types::{Day, InsuredId, InsurerId, PolicyId, SubmissionId, Year};

verus! {

/// A peril that can damage an insured asset.
#[derive(Debug, Clone, Copy, PartialEq, Eq, Structural, Hash)]
pub enum Peril {
    WindstormAtlantic,
    Attritional,
}

/// The risk being submitted for coverage.
/// Full coverage: the insurer writes limit = sum_insured, attachment = 0.
#[derive(Debug)]
pub struct Risk {
    /// Monetary units (USD cents).
    pub sum_insured: u64,
    pub territory: String,
    pub perils_covered: Vec<Peril>,
}

/// A risk as plain values.
pub struct RiskView {
    pub sum_insured: u64,
    pub territory: Seq<char>,
    pub perils_covered: Seq<Peril>,
}

impl View for Risk {
    type V = RiskView;

    open spec fn view(&self) -> RiskView {
        RiskView {
            sum_insured: self.sum_insured,
            territory: self.territory@,
            perils_covered: self.perils_covered@,
        }
    }
}

impl Clone for Risk {
    /// A copy of the risk, field for field.
    fn clone(&self) -> (r: Risk)
        ensures
            r@ == self@,
    {
        let perils_covered = self.perils_covered.clone();
        proof {
            assert(perils_covered@ =~= self.perils_covered@);
        }
        Risk { sum_insured: self.sum_insured, territory: self.territory.clone(), perils_covered }
    }
}

/// Whether `perils` lists `p`.
pub fn covers_peril(perils: &Vec<Peril>, p: Peril) -> (r: bool)
    ensures
        r == perils@.contains(p),
{
    let mut i: usize = 0;
    while i < perils.len()
        invariant
            i <= perils@.len(),
            forall|j: int| 0 <= j < i ==> perils@[j] != p,
        decreases perils@.len() - i,
    {
        if perils[i] == p {
            return true;
        }
        i = i + 1;
    }
    false
}

/// Why an insurer declined to quote.
#[derive(Debug, Clone, Copy, PartialEq, Eq, Structural)]
pub enum DeclineReason {
    MaxLineSizeExceeded,
    MaxCatAggregateBreached,
    Insolvent,
    /// Insurer is in voluntary runoff; no new business accepted until re-entry.
    InRunoff,
}

/// Every fact the simulation records.
#[derive(Debug, Clone)]
pub enum Event {
    /// Fires once at Day(0) to bootstrap the simulation. Schedules YearStart(year_start).
    /// `warmup_years` warm-up years are prepended before the `analysis_years` analysis period.
    SimulationStart { year_start: Year, warmup_years: u32, analysis_years: u32 },
    /// Fires at the start of each simulated year.
    YearStart { year: Year },
    /// Fires at the end of each simulated year.
    YearEnd { year: Year },
    /// An insured requests coverage for the year. Broker routes to a lead insurer.
    CoverageRequested { insured_id: InsuredId, risk: Risk },
    /// Broker asks the selected lead insurer to price a risk.
    LeadQuoteRequested {
        submission_id: SubmissionId,
        insured_id: InsuredId,
        insurer_id: InsurerId,
        risk: Risk,
    },
    /// Lead insurer declined to quote; the broker re-routes to the next insurer.
    LeadQuoteDeclined {
        submission_id: SubmissionId,
        insured_id: InsuredId,
        insurer_id: InsurerId,
        reason: DeclineReason,
    },
    /// Lead insurer has priced the risk and issued a quote.
    LeadQuoteIssued {
        submission_id: SubmissionId,
        insured_id: InsuredId,
        insurer_id: InsurerId,
        /// Actuarial technical price (break-even floor).
        atp: u64,
        /// Final quoted premium (underwriter decision).
        premium: u64,
        /// Insurer's WindstormAtlantic aggregate before this risk is added
        /// (0 if the risk does not cover cat).
        cat_exposure_at_quote: u64,
    },
    /// Broker presents the quote to the insured.
    QuotePresented {
        submission_id: SubmissionId,
        insured_id: InsuredId,
        insurer_id: InsurerId,
        premium: u64,
    },
    /// Insured accepts the quote. Market creates the policy record.
    QuoteAccepted {
        submission_id: SubmissionId,
        insured_id: InsuredId,
        insurer_id: InsurerId,
        premium: u64,
    },
    /// Insured rejects the quote (rate on line exceeds its ceiling).
    QuoteRejected { submission_id: SubmissionId, insured_id: InsuredId },
    /// All insurers declined this submission.
    SubmissionDropped { submission_id: SubmissionId, insured_id: InsuredId },
    /// Policy is formally bound. Activates the policy for loss routing.
    PolicyBound {
        policy_id: PolicyId,
        submission_id: SubmissionId,
        insured_id: InsuredId,
        insurer_id: InsurerId,
        premium: u64,
        sum_insured: u64,
        /// Insurer's total WindstormAtlantic aggregate after this policy is added.
        total_cat_exposure: u64,
    },
    PolicyExpired { policy_id: PolicyId },
    /// A catastrophe strikes one territory.
    LossEvent { event_id: u64, peril: Peril, territory: String },
    /// A peril has damaged an insured's assets.
    AssetDamage { insured_id: InsuredId, peril: Peril, ground_up_loss: u64 },
    ClaimSettled {
        policy_id: PolicyId,
        insurer_id: InsurerId,
        amount: u64,
        peril: Peril,
        /// Insurer's capital remaining after this claim is paid (floored at zero).
        remaining_capital: u64,
    },
    /// Emitted the first time a claim drives an insurer's capital to zero.
    InsurerInsolvent { insurer_id: InsurerId },
    /// A new insurer has entered the market.
    InsurerEntered { insurer_id: InsurerId, initial_capital: u64 },
    /// An insurer has voluntarily entered runoff.
    InsurerExited { insurer_id: InsurerId },
    /// A runoff insurer has re-entered the market.
    InsurerReEntered { insurer_id: InsurerId },
    /// At year end, part of the year's underwriting profit was paid out of capital to
    /// the insurer's Names.
    CapitalDistributed {
        insurer_id: InsurerId,
        amount: u64,
        /// Capital left after the distribution (floored at zero).
        remaining_capital: u64,
    },
    /// The insurer's position at year end, before its year-to-date figures are reset.
    YearEndCapital {
        insurer_id: InsurerId,
        /// Capital (floored at zero).
        capital: u64,
        /// Capital at entry (floored at zero).
        initial_capital: u64,
        ytd_premium: u64,
        ytd_claims: u64,
    },
}

/// A dispatched event with its simulation day. Position in the log is its
/// implicit sequence number.
#[derive(Debug, Clone)]
pub struct SimEvent {
    pub day: Day,
    pub event: Event,
}

/// Append-only log of dispatched events. `log[i]` has implicit sequence number `i`.
#[derive(Debug)]
pub struct EventLog(Vec<SimEvent>);

impl View for EventLog {
    type V = Seq<SimEvent>;

    closed spec fn view(&self) -> Seq<SimEvent> {
        self.0@
    }
}

impl EventLog {
    /// An empty log.
    pub fn new() -> (log: EventLog)
        ensures
            log@ == Seq::<SimEvent>::empty(),
    {
        EventLog(Vec::new())
    }

    /// Seed from an existing event list (tests and checkpoint replay).
    pub fn from_history(events: Vec<SimEvent>) -> (log: EventLog)
        ensures
            log@ == events@,
    {
        EventLog(events)
    }

    /// Append one event at the end.
    pub fn push(&mut self, ev: SimEvent)
        ensures
            final(self)@ == old(self)@.push(ev),
    {
        self.0.push(ev);
    }

    pub fn len(&self) -> (n: usize)
        ensures
            n == self@.len(),
    {
        self.0.len()
    }

    pub fn is_empty(&self) -> (b: bool)
        ensures
            b == (self@.len() == 0),
    {
        self.0.len() == 0
    }

    /// The logged events in sequence order.
    pub fn as_slice(&self) -> (s: &[SimEvent])
        ensures
            s@ == self@,
    {
        self.0.as_slice()
    }

    /// Iterate the logged events in sequence order.
    pub fn iter(&self) -> (it: std::slice::Iter<'_, SimEvent>)
        ensures
            IteratorSpec::remaining(&it).unref() == self@,
    {
        let it = self.0.as_slice().iter();
        proof {
            broadcast use vstd::std_specs::slice::axiom_spec_slice_iter;
        }
        it
    }

    /// Mutable reference to the most recently pushed entry, used to back-fill
    /// computed fields (such as remaining capital) right after it is processed.
    pub fn last_mut(&mut self) -> (r: Option<&mut SimEvent>)
        ensures
            old(self)@.len() == 0 ==> r.is_none() && final(self)@ == old(self)@,
            old(self)@.len() != 0 ==> r.is_some() && *r.unwrap() == old(self)@.last()
                && final(self)@ == old(self)@.update(old(self)@.len() - 1, *final(r.unwrap())),
    {
        self.0.as_mut_slice().last_mut()
    }
}

} // verus!
