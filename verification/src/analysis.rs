//! Audits of a recorded event stream: the timing mechanics of the quoting chain,
//! policy lifecycle and losses, and the structural integrity of claims, binding
//! and quoting.
use std::collections::HashMap;

use vstd::prelude::*;

use crate::events::{Event, Peril, SimEvent};
use crate::stream::{first_values, last_values, distinct_keys, lemma_take_step, lemma_distinct_keys_dom,
    lemma_first_value_at, lemma_first_values_keys, selects};

pub use crate::integrity::{verify_integrity, IntegrityViolation};
pub use crate::stats::{analyse, YearStats};

verus! {

broadcast use vstd::std_specs::hash::group_hash_axioms;

// ── Rendered texts ───────────────────────────────────────────────────────────

/// The text `format!` renders for a binding that missed its day:
/// "PolicyBound at day {day}, expected {expected} (LeadQuoteRequested at {lqr})".
pub uninterp spec fn chain_detail_text(day: u64, expected: u64, lqr: u64) -> Seq<char>;

/// The text `format!` renders for a catastrophe loss above the sum insured:
/// "insured {insured} gul {gul} > sum_insured {sum_insured}".
pub uninterp spec fn cat_detail_text(insured: u64, gul: u64, sum_insured: u64) -> Seq<char>;

/// Renders the day-offset detail with std's `format!`; the result is named, not described.
#[verifier::external_body]
fn chain_detail(day: u64, expected: u64, lqr: u64) -> (s: String)
    ensures
        s@ == chain_detail_text(day, expected, lqr),
{
    format!("PolicyBound at day {day}, expected {expected} (LeadQuoteRequested at {lqr})")
}

/// Renders the catastrophe-fraction detail with std's `format!`; the result is named, not described.
#[verifier::external_body]
fn cat_detail(insured: u64, gul: u64, sum_insured: u64) -> (s: String)
    ensures
        s@ == cat_detail_text(insured, gul, sum_insured),
{
    format!("insured {} gul {} > sum_insured {}", insured, gul, sum_insured)
}

// ── Mechanics ────────────────────────────────────────────────────────────────

/// A mechanics invariant violation detected in the event stream.
#[derive(Debug)]
pub enum MechanicsViolation {
    /// PolicyBound did not arrive exactly 2 days after LeadQuoteRequested.
    DayOffsetChain { submission_id: u64, detail: String },
    /// AssetDamage arrived before the insured's first CoverageRequested (any peril).
    LossBeforeBound { insured_id: u64, loss_day: u64, bound_day: u64 },
    /// Attritional AssetDamage arrived on or before the insured's CoverageRequested day.
    AttrNotStrictlyPostBound { insured_id: u64, loss_day: u64, bound_day: u64 },
    /// PolicyExpired did not fire at QuoteAccepted day + 361.
    PolicyExpiredTiming { policy_id: u64, expected: u64, actual: u64 },
    /// ClaimSettled arrived after the policy had expired.
    ClaimAfterExpiry { policy_id: u64, claim_day: u64, expiry_day: u64 },
    /// AssetDamage ground_up_loss exceeds the insured sum_insured (damage fraction > 1.0).
    CatFractionInconsistent { peril: String, day: u64, detail: String },
}

/// A mechanics violation with its texts taken as character sequences.
pub enum MechanicsIssue {
    DayOffsetChain { submission_id: u64, detail: Seq<char> },
    LossBeforeBound { insured_id: u64, loss_day: u64, bound_day: u64 },
    AttrNotStrictlyPostBound { insured_id: u64, loss_day: u64, bound_day: u64 },
    PolicyExpiredTiming { policy_id: u64, expected: u64, actual: u64 },
    ClaimAfterExpiry { policy_id: u64, claim_day: u64, expiry_day: u64 },
    CatFractionInconsistent { peril: Seq<char>, day: u64, detail: Seq<char> },
}

impl View for MechanicsViolation {
    type V = MechanicsIssue;

    open spec fn view(&self) -> MechanicsIssue {
        match self {
            MechanicsViolation::DayOffsetChain { submission_id, detail } => MechanicsIssue::DayOffsetChain {
                submission_id: *submission_id,
                detail: detail@,
            },
            MechanicsViolation::LossBeforeBound { insured_id, loss_day, bound_day } => MechanicsIssue::LossBeforeBound {
                insured_id: *insured_id,
                loss_day: *loss_day,
                bound_day: *bound_day,
            },
            MechanicsViolation::AttrNotStrictlyPostBound { insured_id, loss_day, bound_day } => MechanicsIssue::AttrNotStrictlyPostBound {
                insured_id: *insured_id,
                loss_day: *loss_day,
                bound_day: *bound_day,
            },
            MechanicsViolation::PolicyExpiredTiming { policy_id, expected, actual } => MechanicsIssue::PolicyExpiredTiming {
                policy_id: *policy_id,
                expected: *expected,
                actual: *actual,
            },
            MechanicsViolation::ClaimAfterExpiry { policy_id, claim_day, expiry_day } => MechanicsIssue::ClaimAfterExpiry {
                policy_id: *policy_id,
                claim_day: *claim_day,
                expiry_day: *expiry_day,
            },
            MechanicsViolation::CatFractionInconsistent { peril, day, detail } => MechanicsIssue::CatFractionInconsistent {
                peril: peril@,
                day: *day,
                detail: detail@,
            },
        }
    }
}

/// The abstract form of a list of mechanics violations.
pub open spec fn mechanics_issues(v: Seq<MechanicsViolation>) -> Seq<MechanicsIssue> {
    v.map_values(|x: MechanicsViolation| x@)
}

/// A CoverageRequested, keyed by insured, with its day and sum insured.
pub open spec fn coverage_request(e: SimEvent) -> Option<(u64, (u64, u64))> {
    match e.event {
        Event::CoverageRequested { insured_id, risk } => Some((insured_id.0, (e.day.0, risk.sum_insured))),
        _ => None,
    }
}

/// A LeadQuoteRequested, keyed by submission, with its day.
pub open spec fn lead_request_day(e: SimEvent) -> Option<(u64, u64)> {
    match e.event {
        Event::LeadQuoteRequested { submission_id, .. } => Some((submission_id.0, e.day.0)),
        _ => None,
    }
}

/// A QuoteAccepted, keyed by submission, with its day.
pub open spec fn acceptance_day(e: SimEvent) -> Option<(u64, u64)> {
    match e.event {
        Event::QuoteAccepted { submission_id, .. } => Some((submission_id.0, e.day.0)),
        _ => None,
    }
}

/// A PolicyBound, keyed by submission, with the policy it created.
pub open spec fn bound_policy(e: SimEvent) -> Option<(u64, u64)> {
    match e.event {
        Event::PolicyBound { submission_id, policy_id, .. } => Some((submission_id.0, policy_id.0)),
        _ => None,
    }
}

/// A PolicyExpired, keyed by policy, with its day.
pub open spec fn expiry_day(e: SimEvent) -> Option<(u64, u64)> {
    match e.event {
        Event::PolicyExpired { policy_id } => Some((policy_id.0, e.day.0)),
        _ => None,
    }
}

/// First LeadQuoteRequested day per submission.
pub open spec fn lead_request_days(s: Seq<SimEvent>) -> Map<u64, u64> {
    first_values(s, |e: SimEvent| lead_request_day(e))
}

/// Last QuoteAccepted day per submission.
pub open spec fn acceptance_days(s: Seq<SimEvent>) -> Map<u64, u64> {
    last_values(s, |e: SimEvent| acceptance_day(e))
}

/// Last policy bound per submission.
pub open spec fn policy_of_submission(s: Seq<SimEvent>) -> Map<u64, u64> {
    last_values(s, |e: SimEvent| bound_policy(e))
}

/// Submissions that were bound, in order of their first PolicyBound.
pub open spec fn bound_submissions(s: Seq<SimEvent>) -> Seq<u64> {
    distinct_keys(s, |e: SimEvent| bound_policy(e))
}

/// Last PolicyExpired day per policy.
pub open spec fn expiry_days(s: Seq<SimEvent>) -> Map<u64, u64> {
    last_values(s, |e: SimEvent| expiry_day(e))
}

/// First CoverageRequested (day, sum insured) per insured.
pub open spec fn first_coverage(s: Seq<SimEvent>) -> Map<u64, (u64, u64)> {
    first_values(s, |e: SimEvent| coverage_request(e))
}

/// Invariant 1: every PolicyBound whose submission had an earlier LeadQuoteRequested
/// must arrive exactly 2 days after the first such request.
pub open spec fn chain_issues(s: Seq<SimEvent>) -> Seq<MechanicsIssue>
    decreases s.len(),
{
    if s.len() == 0 {
        Seq::empty()
    } else {
        let prev = chain_issues(s.drop_last());
        let e = s.last();
        match e.event {
            Event::PolicyBound { submission_id, .. } => {
                let lqr = lead_request_days(s.drop_last());
                if lqr.contains_key(submission_id.0) && e.day.0 != lqr[submission_id.0] + 2 {
                    prev.push(
                        MechanicsIssue::DayOffsetChain {
                            submission_id: submission_id.0,
                            detail: chain_detail_text(
                                e.day.0,
                                (lqr[submission_id.0] + 2) as u64,
                                lqr[submission_id.0],
                            ),
                        },
                    )
                } else {
                    prev
                }
            },
            _ => prev,
        }
    }
}

/// Invariant 4, over the bound submissions `subs` in order: the policy's last
/// PolicyExpired must fall 361 days after the submission's last QuoteAccepted.
pub open spec fn timing_issues(
    subs: Seq<u64>,
    policy_of: Map<u64, u64>,
    accepted: Map<u64, u64>,
    expired: Map<u64, u64>,
) -> Seq<MechanicsIssue>
    decreases subs.len(),
{
    if subs.len() == 0 {
        Seq::empty()
    } else {
        let prev = timing_issues(subs.drop_last(), policy_of, accepted, expired);
        let sub = subs.last();
        let pid = policy_of[sub];
        if accepted.contains_key(sub) && expired.contains_key(pid) && expired[pid] != accepted[sub]
            + 361 {
            prev.push(
                MechanicsIssue::PolicyExpiredTiming {
                    policy_id: pid,
                    expected: (accepted[sub] + 361) as u64,
                    actual: expired[pid],
                },
            )
        } else {
            prev
        }
    }
}

/// Invariants 2, 3, 6 (per AssetDamage) and 5 (per ClaimSettled), judged against the
/// insureds' first coverage requests and the policies' expiry days.
pub open spec fn loss_issues(s: Seq<SimEvent>, cover: Map<u64, (u64, u64)>, expired: Map<u64, u64>) -> Seq<
    MechanicsIssue,
>
    decreases s.len(),
{
    if s.len() == 0 {
        Seq::empty()
    } else {
        let prev = loss_issues(s.drop_last(), cover, expired);
        let e = s.last();
        let d = e.day.0;
        match e.event {
            Event::AssetDamage { insured_id, peril, ground_up_loss } => {
                let i = insured_id.0;
                let known = cover.contains_key(i);
                let before: Seq<MechanicsIssue> = if known && d < cover[i].0 {
                    seq![MechanicsIssue::LossBeforeBound { insured_id: i, loss_day: d, bound_day: cover[i].0 }]
                } else {
                    Seq::empty()
                };
                let attr: Seq<MechanicsIssue> = if known && peril == Peril::Attritional && d <= cover[i].0 {
                    seq![
                        MechanicsIssue::AttrNotStrictlyPostBound {
                            insured_id: i,
                            loss_day: d,
                            bound_day: cover[i].0,
                        },
                    ]
                } else {
                    Seq::empty()
                };
                let cat: Seq<MechanicsIssue> = if peril == Peril::WindstormAtlantic && known
                    && ground_up_loss > cover[i].1 {
                    seq![
                        MechanicsIssue::CatFractionInconsistent {
                            peril: "WindstormAtlantic"@,
                            day: d,
                            detail: cat_detail_text(i, ground_up_loss, cover[i].1),
                        },
                    ]
                } else {
                    Seq::empty()
                };
                prev + before + attr + cat
            },
            Event::ClaimSettled { policy_id, .. } => {
                if expired.contains_key(policy_id.0) && d > expired[policy_id.0] {
                    prev.push(
                        MechanicsIssue::ClaimAfterExpiry {
                            policy_id: policy_id.0,
                            claim_day: d,
                            expiry_day: expired[policy_id.0],
                        },
                    )
                } else {
                    prev
                }
            },
            _ => prev,
        }
    }
}

/// Everything `verify_mechanics` reports for `s`: the day-offset findings in stream
/// order, then the expiry-timing findings by bound submission, then the loss and
/// claim findings in stream order.
pub open spec fn mechanics_findings(s: Seq<SimEvent>) -> Seq<MechanicsIssue> {
    chain_issues(s) + timing_issues(
        bound_submissions(s),
        policy_of_submission(s),
        acceptance_days(s),
        expiry_days(s),
    ) + loss_issues(s, first_coverage(s), expiry_days(s))
}

/// Appending `e`, an event that is neither a lead request, an acceptance, a binding nor
/// an expiry, leaves the quoting-chain and expiry-timing findings as they were.
proof fn lemma_push_keeps_chain_and_timing(s: Seq<SimEvent>, e: SimEvent)
    requires
        !(e.event is LeadQuoteRequested),
        !(e.event is QuoteAccepted),
        !(e.event is PolicyBound),
        !(e.event is PolicyExpired),
    ensures
        chain_issues(s.push(e)) == chain_issues(s),
        bound_submissions(s.push(e)) == bound_submissions(s),
        policy_of_submission(s.push(e)) == policy_of_submission(s),
        acceptance_days(s.push(e)) == acceptance_days(s),
        expiry_days(s.push(e)) == expiry_days(s),
{
    let t = s.push(e);
    assert(t.drop_last() =~= s);
    assert(t.last() == e);
}

/// Insured `i`'s request for cover.
pub open spec fn requests_cover(e: SimEvent, i: u64) -> bool {
    e.event is CoverageRequested && e.event->CoverageRequested_insured_id.0 == i
}

/// A loss is dated by the insured's first request for cover: a later request of the
/// same insured changes nothing the mechanics audit reports.
pub proof fn lemma_repeat_request_changes_no_finding(s: Seq<SimEvent>, e: SimEvent, k: int, i: u64)
    requires
        0 <= k < s.len(),
        requests_cover(s[k], i),
        requests_cover(e, i),
    ensures
        mechanics_findings(s.push(e)) == mechanics_findings(s),
{
    let t = s.push(e);
    lemma_push_keeps_chain_and_timing(s, e);
    assert(t.drop_last() =~= s);
    assert(t.last() == e);
    let f = |e: SimEvent| coverage_request(e);
    assert(selects(f, s[k], i));
    lemma_first_values_keys(s, f, i);
    assert(first_coverage(t) == first_coverage(s));
    assert(loss_issues(t, first_coverage(s), expiry_days(s)) == loss_issues(s, first_coverage(s), expiry_days(s)));
}

/// Losses are judged against the insured's first request for cover: a loss of insured `i`
/// on day `d`, where `i` first asked for cover on day `c` for sum insured `si` (at `s[k]`),
/// adds a loss-before-bound finding exactly when `d < c`, an attritional-timing finding
/// exactly when it is attritional and `d <= c`, both dated by `c`, a catastrophe finding
/// exactly when it is a windstorm loss above `si`, and nothing else.
pub proof fn lemma_loss_judged_by_first_request(s: Seq<SimEvent>, k: int, i: u64, e: SimEvent)
    requires
        0 <= k < s.len(),
        requests_cover(s[k], i),
        forall|j: int| 0 <= j < k ==> !requests_cover(#[trigger] s[j], i),
        e.event is AssetDamage,
        e.event->AssetDamage_insured_id.0 == i,
    ensures
        ({
            let c = s[k].day.0;
            let si = s[k].event->CoverageRequested_risk.sum_insured;
            let d = e.day.0;
            let gul = e.event->AssetDamage_ground_up_loss;
            let peril = e.event->AssetDamage_peril;
            mechanics_findings(s.push(e)) == mechanics_findings(s) + (if d < c {
                seq![MechanicsIssue::LossBeforeBound { insured_id: i, loss_day: d, bound_day: c }]
            } else {
                Seq::empty()
            }) + (if peril == Peril::Attritional && d <= c {
                seq![MechanicsIssue::AttrNotStrictlyPostBound { insured_id: i, loss_day: d, bound_day: c }]
            } else {
                Seq::empty()
            }) + (if peril == Peril::WindstormAtlantic && gul > si {
                seq![
                    MechanicsIssue::CatFractionInconsistent {
                        peril: "WindstormAtlantic"@,
                        day: d,
                        detail: cat_detail_text(i, gul, si),
                    },
                ]
            } else {
                Seq::empty()
            })
        }),
{
    let t = s.push(e);
    lemma_push_keeps_chain_and_timing(s, e);
    assert(t.drop_last() =~= s);
    assert(t.last() == e);
    let f = |e: SimEvent| coverage_request(e);
    assert(selects(f, s[k], i));
    assert forall|j: int| 0 <= j < k implies !selects(f, #[trigger] s[j], i) by {
        assert(!requests_cover(s[j], i));
    }
    lemma_first_value_at(s, f, k, i);
    assert(first_coverage(t) == first_coverage(s));
    let cv = first_coverage(s);
    let c = s[k].day.0;
    let si = s[k].event->CoverageRequested_risk.sum_insured;
    let d = e.day.0;
    let gul = e.event->AssetDamage_ground_up_loss;
    let peril = e.event->AssetDamage_peril;
    assert(cv[i] == (c, si));
    let before: Seq<MechanicsIssue> = if d < c {
        seq![MechanicsIssue::LossBeforeBound { insured_id: i, loss_day: d, bound_day: c }]
    } else {
        Seq::empty()
    };
    let attr: Seq<MechanicsIssue> = if peril == Peril::Attritional && d <= c {
        seq![MechanicsIssue::AttrNotStrictlyPostBound { insured_id: i, loss_day: d, bound_day: c }]
    } else {
        Seq::empty()
    };
    let cat: Seq<MechanicsIssue> = if peril == Peril::WindstormAtlantic && gul > si {
        seq![MechanicsIssue::CatFractionInconsistent { peril: "WindstormAtlantic"@, day: d, detail: cat_detail_text(i, gul, si) }]
    } else {
        Seq::empty()
    };
    let x = expiry_days(s);
    assert(loss_issues(t, cv, x) == loss_issues(s, cv, x) + before + attr + cat);
    let a = chain_issues(s);
    let b = timing_issues(bound_submissions(s), policy_of_submission(s), acceptance_days(s), expiry_days(s));
    assert(mechanics_findings(t) =~= a + b + (loss_issues(s, cv, x) + before + attr + cat));
    assert(mechanics_findings(t) =~= mechanics_findings(s) + before + attr + cat);
}

/// The days the audit adds to fit in a day: a lead request's day plus the two days of
/// the chain, and an acceptance's day plus the 361-day policy term.
pub open spec fn days_leave_term(s: Seq<SimEvent>) -> bool {
    forall|i: int|
        0 <= i < s.len() ==> {
            &&& (#[trigger] s[i]).event is LeadQuoteRequested ==> s[i].day.0 <= u64::MAX - 2
            &&& s[i].event is QuoteAccepted ==> s[i].day.0 <= u64::MAX - 361
        }
}

/// Check the six mechanics invariants. Returns one item per violation found.
pub fn verify_mechanics(events: &[SimEvent]) -> (violations: Vec<MechanicsViolation>)
    requires
        days_leave_term(events@),
    ensures
        mechanics_issues(violations@) == mechanics_findings(events@),
{
    let ghost evs = events@;
    let mut violations: Vec<MechanicsViolation> = Vec::new();
    let mut lqr_day: HashMap<u64, u64> = HashMap::new();
    let mut qa_day: HashMap<u64, u64> = HashMap::new();
    let mut policy_from_sub: HashMap<u64, u64> = HashMap::new();
    let mut bound_subs: Vec<u64> = Vec::new();
    let mut expiry: HashMap<u64, u64> = HashMap::new();
    let mut cover: HashMap<u64, (u64, u64)> = HashMap::new();

    // First pass: index the quoting chain and the policy lifecycle.
    let n = events.len();
    let mut i: usize = 0;
    while i < n
        invariant
            n == evs.len(),
            evs == events@,
            i <= n,
            days_leave_term(evs),
            lqr_day@ == lead_request_days(evs.take(i as int)),
            qa_day@ == acceptance_days(evs.take(i as int)),
            policy_from_sub@ == policy_of_submission(evs.take(i as int)),
            bound_subs@ == bound_submissions(evs.take(i as int)),
            expiry@ == expiry_days(evs.take(i as int)),
            cover@ == first_coverage(evs.take(i as int)),
            mechanics_issues(violations@) == chain_issues(evs.take(i as int)),
            forall|s: u64| #[trigger] qa_day@.contains_key(s) ==> qa_day@[s] <= u64::MAX - 361,
            forall|s: u64| #[trigger] lqr_day@.contains_key(s) ==> lqr_day@[s] <= u64::MAX - 2,
        decreases n - i,
    {
        proof {
            lemma_take_step(evs, i as int);
            lemma_distinct_keys_dom(evs.take(i as int), |e: SimEvent| bound_policy(e));
        }
        let ghost prev_v = violations@;
        let day = events[i].day.0;
        assert(evs[i as int] == events[i as int]);
        match &events[i].event {
            Event::CoverageRequested { insured_id, risk } => {
                if !cover.contains_key(&insured_id.0) {
                    cover.insert(insured_id.0, (day, risk.sum_insured));
                }
            },
            Event::LeadQuoteRequested { submission_id, .. } => {
                if !lqr_day.contains_key(&submission_id.0) {
                    lqr_day.insert(submission_id.0, day);
                }
            },
            Event::QuoteAccepted { submission_id, .. } => {
                qa_day.insert(submission_id.0, day);
            },
            Event::PolicyBound { policy_id, submission_id, .. } => {
                if !policy_from_sub.contains_key(&submission_id.0) {
                    bound_subs.push(submission_id.0);
                }
                policy_from_sub.insert(submission_id.0, policy_id.0);
                match lqr_day.get(&submission_id.0) {
                    Some(lqr) => {
                        let lqr = *lqr;
                        let expected = lqr + 2;
                        if day != expected {
                            violations.push(
                                MechanicsViolation::DayOffsetChain {
                                    submission_id: submission_id.0,
                                    detail: chain_detail(day, expected, lqr),
                                },
                            );
                            assert(mechanics_issues(violations@) =~= mechanics_issues(prev_v).push(
                                violations@.last()@,
                            ));
                        }
                    },
                    None => {},
                }
            },
            Event::PolicyExpired { policy_id } => {
                expiry.insert(policy_id.0, day);
            },
            _ => {},
        }
        i = i + 1;
    }
    assert(evs.take(n as int) =~= evs);

    // Check PolicyExpiredTiming: expected = QuoteAccepted day + 361.
    proof {
        lemma_distinct_keys_dom(evs, |e: SimEvent| bound_policy(e));
    }
    let ghost chain = mechanics_issues(violations@);
    let mut j: usize = 0;
    while j < bound_subs.len()
        invariant
            j <= bound_subs@.len(),
            bound_subs@ == bound_submissions(evs),
            qa_day@ == acceptance_days(evs),
            policy_from_sub@ == policy_of_submission(evs),
            expiry@ == expiry_days(evs),
            days_leave_term(evs),
            forall|k: u64| #[trigger] bound_subs@.contains(k) <==> policy_from_sub@.contains_key(k),
            forall|s: u64| #[trigger] qa_day@.contains_key(s) ==> qa_day@[s] <= u64::MAX - 361,
            mechanics_issues(violations@) == chain + timing_issues(
                bound_subs@.take(j as int),
                policy_from_sub@,
                qa_day@,
                expiry@,
            ),
        decreases bound_subs@.len() - j,
    {
        assert(bound_subs@.take(j as int + 1).drop_last() =~= bound_subs@.take(j as int));
        let ghost prev_v = violations@;
        let sub = bound_subs[j];
        assert(bound_subs@.contains(sub));
        let pid = *policy_from_sub.get(&sub).unwrap();
        match (qa_day.get(&sub), expiry.get(&pid)) {
            (Some(qa), Some(actual)) => {
                let expected = *qa + 361;
                if *actual != expected {
                    violations.push(
                        MechanicsViolation::PolicyExpiredTiming { policy_id: pid, expected, actual: *actual },
                    );
                    assert(mechanics_issues(violations@) =~= mechanics_issues(prev_v).push(
                        violations@.last()@,
                    ));
                }
            },
            _ => {},
        }
        j = j + 1;
    }
    assert(bound_subs@.take(j as int) =~= bound_subs@);

    // Second pass: loss and claim timing.
    let ghost before_losses = mechanics_issues(violations@);
    let mut i: usize = 0;
    while i < n
        invariant
            n == evs.len(),
            evs == events@,
            i <= n,
            cover@ == first_coverage(evs),
            expiry@ == expiry_days(evs),
            mechanics_issues(violations@) == before_losses + loss_issues(
                evs.take(i as int),
                cover@,
                expiry@,
            ),
        decreases n - i,
    {
        proof {
            lemma_take_step(evs, i as int);
        }
        let ghost prev_v = violations@;
        let day = events[i].day.0;
        match &events[i].event {
            Event::AssetDamage { insured_id, peril, ground_up_loss } => {
                let ghost cv = first_coverage(evs);
                let ghost ii = insured_id.0;
                let ghost known = cv.contains_key(ii);
                match cover.get(&insured_id.0) {
                    Some(c) => {
                        let (cr_day, _) = *c;
                        if day < cr_day {
                            violations.push(
                                MechanicsViolation::LossBeforeBound {
                                    insured_id: insured_id.0,
                                    loss_day: day,
                                    bound_day: cr_day,
                                },
                            );
                        }
                    },
                    None => {},
                }
                let ghost after_before = violations@;
                assert(mechanics_issues(after_before) =~= mechanics_issues(prev_v) + (if known && day < cv[ii].0 {
                    seq![MechanicsIssue::LossBeforeBound { insured_id: ii, loss_day: day, bound_day: cv[ii].0 }]
                } else {
                    Seq::<MechanicsIssue>::empty()
                }));
                match cover.get(&insured_id.0) {
                    Some(c) => {
                        let (cr_day, _) = *c;
                        if *peril == Peril::Attritional && day <= cr_day {
                            violations.push(
                                MechanicsViolation::AttrNotStrictlyPostBound {
                                    insured_id: insured_id.0,
                                    loss_day: day,
                                    bound_day: cr_day,
                                },
                            );
                        }
                    },
                    None => {},
                }
                let ghost after_attr = violations@;
                assert(mechanics_issues(after_attr) =~= mechanics_issues(after_before) + (if known && *peril == Peril::Attritional && day <= cv[ii].0 {
                    seq![MechanicsIssue::AttrNotStrictlyPostBound { insured_id: ii, loss_day: day, bound_day: cv[ii].0 }]
                } else {
                    Seq::<MechanicsIssue>::empty()
                }));
                if *peril == Peril::WindstormAtlantic {
                    match cover.get(&insured_id.0) {
                        Some(c) => {
                            let (_, si) = *c;
                            if *ground_up_loss > si {
                                violations.push(
                                    MechanicsViolation::CatFractionInconsistent {
                                        peril: "WindstormAtlantic".to_owned(),
                                        day,
                                        detail: cat_detail(insured_id.0, *ground_up_loss, si),
                                    },
                                );
                            }
                        },
                        None => {},
                    }
                }
                assert(mechanics_issues(violations@) =~= mechanics_issues(after_attr) + (if *peril == Peril::WindstormAtlantic && known && *ground_up_loss > cv[ii].1 {
                    seq![MechanicsIssue::CatFractionInconsistent { peril: "WindstormAtlantic"@, day, detail: cat_detail_text(ii, *ground_up_loss, cv[ii].1) }]
                } else {
                    Seq::<MechanicsIssue>::empty()
                }));
            },
            Event::ClaimSettled { policy_id, .. } => {
                match expiry.get(&policy_id.0) {
                    Some(exp) => {
                        if day > *exp {
                            violations.push(
                                MechanicsViolation::ClaimAfterExpiry {
                                    policy_id: policy_id.0,
                                    claim_day: day,
                                    expiry_day: *exp,
                                },
                            );
                            assert(mechanics_issues(violations@) =~= mechanics_issues(prev_v).push(
                                violations@.last()@,
                            ));
                        }
                    },
                    None => {},
                }
            },
            _ => {},
        }
        i = i + 1;
    }
    assert(evs.take(n as int) =~= evs);
    violations
}

} // verus!
