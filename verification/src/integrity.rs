//! The structural integrity audit: claim amounts, claim routing, binding flow
//! and quoting flow, checked over a recorded event stream.
use std::collections::HashMap;

use vstd::prelude::*;

use crate::analysis::{
    acceptance_day, acceptance_days, bound_policy, bound_submissions, first_coverage,
    policy_of_submission,
};
use crate::events::{Event, Peril, SimEvent};
use crate::stream::{
    distinct_keys, first_values, key_count, last_values, lemma_distinct_keys_dom, lemma_first_values_keys,
    lemma_key_count_bound, lemma_last_value_at, lemma_take_step, selects,
};
use crate::types::year_of_day;

verus! {

broadcast use vstd::std_specs::hash::group_hash_axioms;

// ── Pair keys ────────────────────────────────────────────────────────────────

/// Hash-map key standing for the pair `(a, b)`.
pub open spec fn pair_key(a: u64, b: u64) -> u128 {
    ((a as int) * 0x1_0000_0000_0000_0000 + (b as int)) as u128
}

pub(crate) fn make_pair_key(a: u64, b: u64) -> (k: u128)
    ensures
        k == pair_key(a, b),
{
    (a as u128) * 0x1_0000_0000_0000_0000u128 + (b as u128)
}

pub(crate) proof fn lemma_pair_key_injective(a: u64, b: u64, c: u64, d: u64)
    ensures
        pair_key(a, b) == pair_key(c, d) <==> (a == c && b == d),
{
    if pair_key(a, b) == pair_key(c, d) {
        assert((a as int) * 0x1_0000_0000_0000_0000 + (b as int) == (c as int)
            * 0x1_0000_0000_0000_0000 + (d as int));
        assert(a == c && b == d) by (nonlinear_arith)
            requires
                (a as int) * 0x1_0000_0000_0000_0000 + (b as int) == (c as int)
                    * 0x1_0000_0000_0000_0000 + (d as int),
                0 <= b < 0x1_0000_0000_0000_0000,
                0 <= d < 0x1_0000_0000_0000_0000,
        ;
    }
}

/// `c` is the hash-map form of the pair-keyed map `m`.
pub open spec fn encodes<V>(c: Map<u128, V>, m: Map<(u64, u64), V>) -> bool {
    &&& forall|a: u64, b: u64| #[trigger]
        c.contains_key(pair_key(a, b)) <==> m.contains_key((a, b))
    &&& forall|a: u64, b: u64| #[trigger]
        m.contains_key((a, b)) ==> c[pair_key(a, b)] == m[(a, b)]
}

proof fn lemma_encodes_insert<V>(c: Map<u128, V>, m: Map<(u64, u64), V>, a: u64, b: u64, v: V)
    requires
        encodes(c, m),
    ensures
        encodes(c.insert(pair_key(a, b), v), m.insert((a, b), v)),
{
    assert forall|x: u64, y: u64| #[trigger]
        c.insert(pair_key(a, b), v).contains_key(pair_key(x, y)) <==> m.insert((a, b), v).contains_key(
            (x, y),
        ) by {
        lemma_pair_key_injective(x, y, a, b);
    }
    assert forall|x: u64, y: u64| #[trigger]
        m.insert((a, b), v).contains_key((x, y)) implies c.insert(pair_key(a, b), v)[pair_key(x, y)]
        == m.insert((a, b), v)[(x, y)] by {
        lemma_pair_key_injective(x, y, a, b);
    }
}

// ── Violations ───────────────────────────────────────────────────────────────

/// A structural integrity violation detected in the event stream.
///
/// These are universal truths that must hold for any valid simulation run:
/// claim amounts, routing consistency, and bind-flow completeness.
#[derive(Debug)]
pub enum IntegrityViolation {
    /// An AssetDamage above the insured's sum insured; `policy_id` carries the insured id.
    GulExceedsSumInsured { policy_id: u64, day: u64, peril: String, gul: u64, sum_insured: u64 },
    AggregateClaimExceedsSumInsured { policy_id: u64, year: u32, aggregate: u64, sum_insured: u64 },
    ClaimWithoutMatchingLoss { policy_id: u64, day: u64 },
    ClaimAmountZero { policy_id: u64, day: u64 },
    ClaimInsurerMismatch { policy_id: u64, day: u64, claim_insurer: u64, bound_insurer: u64 },
    QuoteAcceptedWithoutPolicyBound { submission_id: u64, accepted_day: u64 },
    PolicyBoundInsurerMismatch {
        submission_id: u64,
        policy_id: u64,
        bound_insurer: u64,
        accepted_insurer: u64,
    },
    DuplicatePolicyBound { policy_id: u64 },
    PolicyExpiredWithoutBound { policy_id: u64 },
    /// LeadQuoteRequested with no insurer response.
    LeadQuoteOrphanRequest { submission_id: u64, insurer_id: u64, day: u64 },
    /// (submission, insurer) received more than one insurer response.
    LeadQuoteDuplicateResponse { submission_id: u64, insurer_id: u64, count: u32 },
    /// LeadQuoteIssued or LeadQuoteDeclined without a prior LeadQuoteRequested.
    LeadQuoteOrphanResponse { submission_id: u64, insurer_id: u64, day: u64, kind: String },
}

/// An integrity violation with its texts taken as character sequences.
pub enum IntegrityIssue {
    GulExceedsSumInsured { policy_id: u64, day: u64, peril: Seq<char>, gul: u64, sum_insured: u64 },
    AggregateClaimExceedsSumInsured { policy_id: u64, year: u32, aggregate: u64, sum_insured: u64 },
    ClaimWithoutMatchingLoss { policy_id: u64, day: u64 },
    ClaimAmountZero { policy_id: u64, day: u64 },
    ClaimInsurerMismatch { policy_id: u64, day: u64, claim_insurer: u64, bound_insurer: u64 },
    QuoteAcceptedWithoutPolicyBound { submission_id: u64, accepted_day: u64 },
    PolicyBoundInsurerMismatch {
        submission_id: u64,
        policy_id: u64,
        bound_insurer: u64,
        accepted_insurer: u64,
    },
    DuplicatePolicyBound { policy_id: u64 },
    PolicyExpiredWithoutBound { policy_id: u64 },
    LeadQuoteOrphanRequest { submission_id: u64, insurer_id: u64, day: u64 },
    LeadQuoteDuplicateResponse { submission_id: u64, insurer_id: u64, count: u32 },
    LeadQuoteOrphanResponse { submission_id: u64, insurer_id: u64, day: u64, kind: Seq<char> },
}

impl View for IntegrityViolation {
    type V = IntegrityIssue;

    open spec fn view(&self) -> IntegrityIssue {
        match self {
            IntegrityViolation::GulExceedsSumInsured { policy_id, day, peril, gul, sum_insured } =>
                IntegrityIssue::GulExceedsSumInsured {
                policy_id: *policy_id,
                day: *day,
                peril: peril@,
                gul: *gul,
                sum_insured: *sum_insured,
            },
            IntegrityViolation::AggregateClaimExceedsSumInsured {
                policy_id,
                year,
                aggregate,
                sum_insured,
            } => IntegrityIssue::AggregateClaimExceedsSumInsured {
                policy_id: *policy_id,
                year: *year,
                aggregate: *aggregate,
                sum_insured: *sum_insured,
            },
            IntegrityViolation::ClaimWithoutMatchingLoss { policy_id, day } =>
                IntegrityIssue::ClaimWithoutMatchingLoss { policy_id: *policy_id, day: *day },
            IntegrityViolation::ClaimAmountZero { policy_id, day } => IntegrityIssue::ClaimAmountZero {
                policy_id: *policy_id,
                day: *day,
            },
            IntegrityViolation::ClaimInsurerMismatch { policy_id, day, claim_insurer, bound_insurer } =>
                IntegrityIssue::ClaimInsurerMismatch {
                policy_id: *policy_id,
                day: *day,
                claim_insurer: *claim_insurer,
                bound_insurer: *bound_insurer,
            },
            IntegrityViolation::QuoteAcceptedWithoutPolicyBound { submission_id, accepted_day } =>
                IntegrityIssue::QuoteAcceptedWithoutPolicyBound {
                submission_id: *submission_id,
                accepted_day: *accepted_day,
            },
            IntegrityViolation::PolicyBoundInsurerMismatch {
                submission_id,
                policy_id,
                bound_insurer,
                accepted_insurer,
            } => IntegrityIssue::PolicyBoundInsurerMismatch {
                submission_id: *submission_id,
                policy_id: *policy_id,
                bound_insurer: *bound_insurer,
                accepted_insurer: *accepted_insurer,
            },
            IntegrityViolation::DuplicatePolicyBound { policy_id } =>
                IntegrityIssue::DuplicatePolicyBound { policy_id: *policy_id },
            IntegrityViolation::PolicyExpiredWithoutBound { policy_id } =>
                IntegrityIssue::PolicyExpiredWithoutBound { policy_id: *policy_id },
            IntegrityViolation::LeadQuoteOrphanRequest { submission_id, insurer_id, day } =>
                IntegrityIssue::LeadQuoteOrphanRequest {
                submission_id: *submission_id,
                insurer_id: *insurer_id,
                day: *day,
            },
            IntegrityViolation::LeadQuoteDuplicateResponse { submission_id, insurer_id, count } =>
                IntegrityIssue::LeadQuoteDuplicateResponse {
                submission_id: *submission_id,
                insurer_id: *insurer_id,
                count: *count,
            },
            IntegrityViolation::LeadQuoteOrphanResponse { submission_id, insurer_id, day, kind } =>
                IntegrityIssue::LeadQuoteOrphanResponse {
                submission_id: *submission_id,
                insurer_id: *insurer_id,
                day: *day,
                kind: kind@,
            },
        }
    }
}

/// The abstract form of a list of integrity violations.
pub open spec fn integrity_issues(v: Seq<IntegrityViolation>) -> Seq<IntegrityIssue> {
    v.map_values(|x: IntegrityViolation| x@)
}

/// The name of a peril as its `Debug` form prints it.
pub open spec fn peril_text(p: Peril) -> Seq<char> {
    match p {
        Peril::WindstormAtlantic => "WindstormAtlantic"@,
        Peril::Attritional => "Attritional"@,
    }
}

fn peril_name(p: Peril) -> (s: String)
    ensures
        s@ == peril_text(p),
{
    match p {
        Peril::WindstormAtlantic => "WindstormAtlantic".to_owned(),
        Peril::Attritional => "Attritional".to_owned(),
    }
}

// ── Indexes of the stream ────────────────────────────────────────────────────

/// The latest day in the stream (0 for an empty stream).
pub open spec fn max_day(s: Seq<SimEvent>) -> u64
    decreases s.len(),
{
    if s.len() == 0 {
        0
    } else {
        let m = max_day(s.drop_last());
        if s.last().day.0 > m {
            s.last().day.0
        } else {
            m
        }
    }
}

/// A QuoteAccepted, keyed by submission, with the insurer whose quote was accepted.
pub open spec fn acceptance_insurer(e: SimEvent) -> Option<(u64, u64)> {
    match e.event {
        Event::QuoteAccepted { submission_id, insurer_id, .. } => Some((submission_id.0, insurer_id.0)),
        _ => None,
    }
}

/// A PolicyBound, keyed by policy, with (sum insured, insurer, insured).
pub open spec fn binding(e: SimEvent) -> Option<(u64, (u64, u64, u64))> {
    match e.event {
        Event::PolicyBound { policy_id, insurer_id, insured_id, sum_insured, .. } => Some(
            (policy_id.0, (sum_insured, insurer_id.0, insured_id.0)),
        ),
        _ => None,
    }
}

/// An AssetDamage, keyed by (day, insured).
pub open spec fn loss_at(e: SimEvent) -> Option<((u64, u64), ())> {
    match e.event {
        Event::AssetDamage { insured_id, .. } => Some(((e.day.0, insured_id.0), ())),
        _ => None,
    }
}

/// A ClaimSettled, keyed by (policy, year of the claim), with its amount.
pub open spec fn claim_in_year(e: SimEvent) -> Option<((u64, u64), u64)> {
    match e.event {
        Event::ClaimSettled { policy_id, amount, .. } => Some(
            ((policy_id.0, year_of_day(e.day.0) as u64), amount),
        ),
        _ => None,
    }
}

/// A LeadQuoteRequested, keyed by (submission, insurer), with its day.
pub open spec fn lead_request(e: SimEvent) -> Option<((u64, u64), u64)> {
    match e.event {
        Event::LeadQuoteRequested { submission_id, insurer_id, .. } => Some(
            ((submission_id.0, insurer_id.0), e.day.0),
        ),
        _ => None,
    }
}

/// An insurer's answer to a lead request (LeadQuoteIssued or LeadQuoteDeclined),
/// keyed by (submission, insurer), with the name of the answer.
pub open spec fn lead_response(e: SimEvent) -> Option<((u64, u64), Seq<char>)> {
    match e.event {
        Event::LeadQuoteIssued { submission_id, insurer_id, .. } => Some(
            ((submission_id.0, insurer_id.0), "LeadQuoteIssued"@),
        ),
        Event::LeadQuoteDeclined { submission_id, insurer_id, .. } => Some(
            ((submission_id.0, insurer_id.0), "LeadQuoteDeclined"@),
        ),
        _ => None,
    }
}

/// Total claimed per (policy, claim year).
pub open spec fn claim_totals(s: Seq<SimEvent>) -> Map<(u64, u64), nat>
    decreases s.len(),
{
    if s.len() == 0 {
        Map::empty()
    } else {
        let m = claim_totals(s.drop_last());
        match claim_in_year(s.last()) {
            Some((k, amount)) => m.insert(
                k,
                if m.contains_key(k) {
                    (m[k] + amount) as nat
                } else {
                    amount as nat
                },
            ),
            None => m,
        }
    }
}

/// The stream fits the audit's counters: no (policy, year) claim total exceeds
/// `u64::MAX`, claim years fit in `u32`, and there are at most `u32::MAX` events.
pub open spec fn integrity_in_range(s: Seq<SimEvent>) -> bool {
    &&& s.len() <= u32::MAX
    &&& forall|i: int| 0 <= i < s.len() ==> #[trigger] s[i].day.0 / 360 < u32::MAX
    &&& forall|k: (u64, u64)| #[trigger]
        claim_totals(s).contains_key(k) ==> claim_totals(s)[k] <= u64::MAX
}

// ── Findings ─────────────────────────────────────────────────────────────────

/// Check 1: every AssetDamage of an insured with a known sum insured must not exceed it.
pub open spec fn gul_issues(s: Seq<SimEvent>, cover: Map<u64, (u64, u64)>) -> Seq<IntegrityIssue>
    decreases s.len(),
{
    if s.len() == 0 {
        Seq::empty()
    } else {
        let prev = gul_issues(s.drop_last(), cover);
        let e = s.last();
        match e.event {
            Event::AssetDamage { insured_id, peril, ground_up_loss } => if cover.contains_key(
                insured_id.0,
            ) && ground_up_loss > cover[insured_id.0].1 {
                prev.push(
                    IntegrityIssue::GulExceedsSumInsured {
                        policy_id: insured_id.0,
                        day: e.day.0,
                        peril: peril_text(peril),
                        gul: ground_up_loss,
                        sum_insured: cover[insured_id.0].1,
                    },
                )
            } else {
                prev
            },
            _ => prev,
        }
    }
}

/// Check 2: per (policy, year), in order of first claim, the claim total must not
/// exceed the policy's sum insured.
pub open spec fn aggregate_issues(
    keys: Seq<(u64, u64)>,
    totals: Map<(u64, u64), nat>,
    bound: Map<u64, (u64, u64, u64)>,
) -> Seq<IntegrityIssue>
    decreases keys.len(),
{
    if keys.len() == 0 {
        Seq::empty()
    } else {
        let prev = aggregate_issues(keys.drop_last(), totals, bound);
        let k = keys.last();
        if bound.contains_key(k.0) && totals[k] > bound[k.0].0 {
            prev.push(
                IntegrityIssue::AggregateClaimExceedsSumInsured {
                    policy_id: k.0,
                    year: k.1 as u32,
                    aggregate: totals[k] as u64,
                    sum_insured: bound[k.0].0,
                },
            )
        } else {
            prev
        }
    }
}

/// Checks 3 to 5, per ClaimSettled in stream order: a loss to the policy's insured on
/// the claim day, a positive amount, and the binding insurer paying.
pub open spec fn claim_issues(
    s: Seq<SimEvent>,
    bound: Map<u64, (u64, u64, u64)>,
    losses: Map<(u64, u64), ()>,
) -> Seq<IntegrityIssue>
    decreases s.len(),
{
    if s.len() == 0 {
        Seq::empty()
    } else {
        let prev = claim_issues(s.drop_last(), bound, losses);
        let e = s.last();
        let d = e.day.0;
        match e.event {
            Event::ClaimSettled { policy_id, insurer_id, amount, .. } => {
                let p = policy_id.0;
                let matched = bound.contains_key(p) && losses.contains_key((d, bound[p].2));
                let a: Seq<IntegrityIssue> = if matched {
                    Seq::empty()
                } else {
                    seq![IntegrityIssue::ClaimWithoutMatchingLoss { policy_id: p, day: d }]
                };
                let b: Seq<IntegrityIssue> = if amount == 0 {
                    seq![IntegrityIssue::ClaimAmountZero { policy_id: p, day: d }]
                } else {
                    Seq::empty()
                };
                let c: Seq<IntegrityIssue> = if bound.contains_key(p) && insurer_id.0 != bound[p].1 {
                    seq![
                        IntegrityIssue::ClaimInsurerMismatch {
                            policy_id: p,
                            day: d,
                            claim_insurer: insurer_id.0,
                            bound_insurer: bound[p].1,
                        },
                    ]
                } else {
                    Seq::empty()
                };
                prev + a + b + c
            },
            _ => prev,
        }
    }
}

/// Check 6, per accepted submission in order of first acceptance: unless accepted on the
/// final day of the stream, the submission must have been bound.
pub open spec fn unbound_issues(
    subs: Seq<u64>,
    accepted: Map<u64, u64>,
    policy_of: Map<u64, u64>,
    last_day: u64,
) -> Seq<IntegrityIssue>
    decreases subs.len(),
{
    if subs.len() == 0 {
        Seq::empty()
    } else {
        let prev = unbound_issues(subs.drop_last(), accepted, policy_of, last_day);
        let sub = subs.last();
        if accepted[sub] < last_day && !policy_of.contains_key(sub) {
            prev.push(
                IntegrityIssue::QuoteAcceptedWithoutPolicyBound {
                    submission_id: sub,
                    accepted_day: accepted[sub],
                },
            )
        } else {
            prev
        }
    }
}

/// Check 7, per bound submission in order of first binding: the binding insurer must be
/// the one whose quote was accepted.
pub open spec fn binder_issues(
    subs: Seq<u64>,
    policy_of: Map<u64, u64>,
    accepted_by: Map<u64, u64>,
    bound: Map<u64, (u64, u64, u64)>,
) -> Seq<IntegrityIssue>
    decreases subs.len(),
{
    if subs.len() == 0 {
        Seq::empty()
    } else {
        let prev = binder_issues(subs.drop_last(), policy_of, accepted_by, bound);
        let sub = subs.last();
        let p = policy_of[sub];
        if accepted_by.contains_key(sub) && bound.contains_key(p) && accepted_by[sub] != bound[p].1 {
            prev.push(
                IntegrityIssue::PolicyBoundInsurerMismatch {
                    submission_id: sub,
                    policy_id: p,
                    bound_insurer: bound[p].1,
                    accepted_insurer: accepted_by[sub],
                },
            )
        } else {
            prev
        }
    }
}

/// Check 8, per bound policy in order of first binding: it is bound only once.
pub open spec fn duplicate_bind_issues(pids: Seq<u64>, s: Seq<SimEvent>) -> Seq<IntegrityIssue>
    decreases pids.len(),
{
    if pids.len() == 0 {
        Seq::empty()
    } else {
        let prev = duplicate_bind_issues(pids.drop_last(), s);
        let p = pids.last();
        if key_count(s, |e: SimEvent| binding(e), p) > 1 {
            prev.push(IntegrityIssue::DuplicatePolicyBound { policy_id: p })
        } else {
            prev
        }
    }
}

/// Check 9, per PolicyExpired in stream order: the policy was bound somewhere in the stream.
pub open spec fn expiry_issues(s: Seq<SimEvent>, bound: Map<u64, (u64, u64, u64)>) -> Seq<
    IntegrityIssue,
>
    decreases s.len(),
{
    if s.len() == 0 {
        Seq::empty()
    } else {
        let prev = expiry_issues(s.drop_last(), bound);
        match s.last().event {
            Event::PolicyExpired { policy_id } => if bound.contains_key(policy_id.0) {
                prev
            } else {
                prev.push(IntegrityIssue::PolicyExpiredWithoutBound { policy_id: policy_id.0 })
            },
            _ => prev,
        }
    }
}

/// Check 10, per requested (submission, insurer) in order of first request: some
/// response arrived.
pub open spec fn orphan_request_issues(
    pairs: Seq<(u64, u64)>,
    requested: Map<(u64, u64), u64>,
    responded: Map<(u64, u64), Seq<char>>,
) -> Seq<IntegrityIssue>
    decreases pairs.len(),
{
    if pairs.len() == 0 {
        Seq::empty()
    } else {
        let prev = orphan_request_issues(pairs.drop_last(), requested, responded);
        let k = pairs.last();
        if responded.contains_key(k) {
            prev
        } else {
            prev.push(
                IntegrityIssue::LeadQuoteOrphanRequest {
                    submission_id: k.0,
                    insurer_id: k.1,
                    day: requested[k],
                },
            )
        }
    }
}

/// Check 11, per answered (submission, insurer) in order of first answer: at most one answer.
pub open spec fn duplicate_response_issues(pairs: Seq<(u64, u64)>, s: Seq<SimEvent>) -> Seq<
    IntegrityIssue,
>
    decreases pairs.len(),
{
    if pairs.len() == 0 {
        Seq::empty()
    } else {
        let prev = duplicate_response_issues(pairs.drop_last(), s);
        let k = pairs.last();
        let c = key_count(s, |e: SimEvent| lead_response(e), k);
        if c > 1 {
            prev.push(
                IntegrityIssue::LeadQuoteDuplicateResponse {
                    submission_id: k.0,
                    insurer_id: k.1,
                    count: c as u32,
                },
            )
        } else {
            prev
        }
    }
}

/// Check 12, per answer in stream order: the (submission, insurer) was requested earlier.
pub open spec fn orphan_response_issues(s: Seq<SimEvent>) -> Seq<IntegrityIssue>
    decreases s.len(),
{
    if s.len() == 0 {
        Seq::empty()
    } else {
        let prev = orphan_response_issues(s.drop_last());
        let requested = first_values(s.drop_last(), |e: SimEvent| lead_request(e));
        match lead_response(s.last()) {
            Some((k, kind)) => if requested.contains_key(k) {
                prev
            } else {
                prev.push(
                    IntegrityIssue::LeadQuoteOrphanResponse {
                        submission_id: k.0,
                        insurer_id: k.1,
                        day: s.last().day.0,
                        kind,
                    },
                )
            },
            None => prev,
        }
    }
}

/// Everything `verify_integrity` reports for `s`, check by check in the order 1 to 12.
pub open spec fn integrity_findings(s: Seq<SimEvent>) -> Seq<IntegrityIssue> {
    let cover = first_coverage(s);
    let bound = last_values(s, |e: SimEvent| binding(e));
    let losses = first_values(s, |e: SimEvent| loss_at(e));
    let requested = first_values(s, |e: SimEvent| lead_request(e));
    let responded = last_values(s, |e: SimEvent| lead_response(e));
    gul_issues(s, cover) + aggregate_issues(
        distinct_keys(s, |e: SimEvent| claim_in_year(e)),
        claim_totals(s),
        bound,
    ) + claim_issues(s, bound, losses) + unbound_issues(
        distinct_keys(s, |e: SimEvent| acceptance_day(e)),
        acceptance_days(s),
        policy_of_submission(s),
        max_day(s),
    ) + binder_issues(
        bound_submissions(s),
        policy_of_submission(s),
        last_values(s, |e: SimEvent| acceptance_insurer(e)),
        bound,
    ) + duplicate_bind_issues(distinct_keys(s, |e: SimEvent| binding(e)), s) + expiry_issues(
        s,
        bound,
    ) + orphan_request_issues(
        distinct_keys(s, |e: SimEvent| lead_request(e)),
        requested,
        responded,
    ) + duplicate_response_issues(distinct_keys(s, |e: SimEvent| lead_response(e)), s)
        + orphan_response_issues(s)
}


// ── The audit ────────────────────────────────────────────────────────────────

/// Hash-map form of the per-(policy, year) claim totals.
pub open spec fn encodes_totals(c: Map<u128, u64>, m: Map<(u64, u64), nat>) -> bool {
    &&& forall|a: u64, b: u64| #[trigger]
        c.contains_key(pair_key(a, b)) <==> m.contains_key((a, b))
    &&& forall|a: u64, b: u64| #[trigger]
        m.contains_key((a, b)) ==> c[pair_key(a, b)] == m[(a, b)]
}

/// Hash-map form of the per-(submission, insurer) response counts.
pub open spec fn encodes_counts(c: Map<u128, u32>, s: Seq<SimEvent>) -> bool {
    &&& forall|a: u64, b: u64| #[trigger]
        c.contains_key(pair_key(a, b)) <==> last_values(s, |e: SimEvent| lead_response(e)).contains_key((a, b))
    &&& forall|a: u64, b: u64| #[trigger]
        c.contains_key(pair_key(a, b)) ==> c[pair_key(a, b)] == key_count(s, |e: SimEvent| lead_response(e), (a, b))
}

proof fn lemma_claim_totals_prefix(s: Seq<SimEvent>, j: int, k: (u64, u64))
    requires
        0 <= j <= s.len(),
        claim_totals(s.take(j)).contains_key(k),
    ensures
        claim_totals(s).contains_key(k),
        claim_totals(s.take(j))[k] <= claim_totals(s)[k],
    decreases s.len(),
{
    if j == s.len() {
        assert(s.take(j) =~= s);
    } else {
        let t = s.drop_last();
        assert(t.take(j) =~= s.take(j));
        lemma_claim_totals_prefix(t, j, k);
    }
}

proof fn lemma_claim_totals_dom(s: Seq<SimEvent>)
    ensures
        forall|k: (u64, u64)| #[trigger] claim_totals(s).contains_key(k) <==> distinct_keys(s, |e: SimEvent| claim_in_year(e)).contains(k),
    decreases s.len(),
{
    let f = |e: SimEvent| claim_in_year(e);
    lemma_distinct_keys_dom(s, f);
    if s.len() > 0 {
        let t = s.drop_last();
        lemma_claim_totals_dom(t);
        lemma_distinct_keys_dom(t, f);
        match claim_in_year(s.last()) {
            Some((k0, a)) => {
                assert forall|k: (u64, u64)| #[trigger] claim_totals(s).contains_key(k) <==> (claim_totals(t).contains_key(k) || k == k0) by {}
                assert forall|k: (u64, u64)| #[trigger] first_values(s, f).contains_key(k) <==> (first_values(t, f).contains_key(k) || k == k0) by {}
            },
            None => {
                assert(claim_totals(s) == claim_totals(t));
                assert(first_values(s, f) == first_values(t, f));
            },
        }
    }
}

proof fn lemma_claim_year_bound(s: Seq<SimEvent>, k: (u64, u64))
    requires
        forall|i: int| 0 <= i < s.len() ==> #[trigger] s[i].day.0 / 360 < u32::MAX,
        distinct_keys(s, |e: SimEvent| claim_in_year(e)).contains(k),
    ensures
        k.1 <= u32::MAX,
    decreases s.len(),
{
    let f = |e: SimEvent| claim_in_year(e);
    let t = s.drop_last();
    assert forall|i: int| 0 <= i < t.len() implies #[trigger] t[i].day.0 / 360 < u32::MAX by {
        assert(t[i] == s[i]);
    }
    if distinct_keys(t, f).contains(k) {
        lemma_claim_year_bound(t, k);
    } else {
        assert(s.last() == s[s.len() - 1]);
    }
}

/// The indexes `verify_integrity` builds in one pass over the stream.
struct IntegrityIndex {
    max_day: u64,
    cover: HashMap<u64, (u64, u64)>,
    accepted_day: HashMap<u64, u64>,
    accepted_subs: Vec<u64>,
    accepted_by: HashMap<u64, u64>,
    bound: HashMap<u64, (u64, u64, u64)>,
    bound_pids: Vec<u64>,
    bind_count: HashMap<u64, u32>,
    policy_of: HashMap<u64, u64>,
    bound_subs: Vec<u64>,
    losses: HashMap<u128, ()>,
    claim_total: HashMap<u128, u64>,
    claim_keys: Vec<(u64, u64)>,
    requested: HashMap<u128, u64>,
    requested_keys: Vec<(u64, u64)>,
    responses: HashMap<u128, u32>,
    response_keys: Vec<(u64, u64)>,
    orphans: Vec<IntegrityViolation>,
}

impl IntegrityIndex {
    spec fn indexes(&self, s: Seq<SimEvent>) -> bool {
        &&& self.max_day == max_day(s)
        &&& self.cover@ == first_coverage(s)
        &&& self.accepted_day@ == acceptance_days(s)
        &&& self.accepted_subs@ == distinct_keys(s, |e: SimEvent| acceptance_day(e))
        &&& self.accepted_by@ == last_values(s, |e: SimEvent| acceptance_insurer(e))
        &&& self.bound@ == last_values(s, |e: SimEvent| binding(e))
        &&& self.bound_pids@ == distinct_keys(s, |e: SimEvent| binding(e))
        &&& forall|p: u64| #[trigger] self.bind_count@.contains_key(p) <==> self.bound@.contains_key(p)
        &&& forall|p: u64| #[trigger] self.bind_count@.contains_key(p) ==> self.bind_count@[p]
            == key_count(s, |e: SimEvent| binding(e), p)
        &&& self.policy_of@ == policy_of_submission(s)
        &&& self.bound_subs@ == bound_submissions(s)
        &&& encodes(self.losses@, first_values(s, |e: SimEvent| loss_at(e)))
        &&& encodes_totals(self.claim_total@, claim_totals(s))
        &&& self.claim_keys@ == distinct_keys(s, |e: SimEvent| claim_in_year(e))
        &&& encodes(self.requested@, first_values(s, |e: SimEvent| lead_request(e)))
        &&& self.requested_keys@ == distinct_keys(s, |e: SimEvent| lead_request(e))
        &&& encodes_counts(self.responses@, s)
        &&& self.response_keys@ == distinct_keys(s, |e: SimEvent| lead_response(e))
        &&& integrity_issues(self.orphans@) == orphan_response_issues(s)
    }
}

fn build_index(events: &[SimEvent]) -> (ix: IntegrityIndex)
    requires
        integrity_in_range(events@),
    ensures
        ix.indexes(events@),
{
    let ghost evs = events@;
    let mut ix = IntegrityIndex {
        max_day: 0,
        cover: HashMap::new(),
        accepted_day: HashMap::new(),
        accepted_subs: Vec::new(),
        accepted_by: HashMap::new(),
        bound: HashMap::new(),
        bound_pids: Vec::new(),
        bind_count: HashMap::new(),
        policy_of: HashMap::new(),
        bound_subs: Vec::new(),
        losses: HashMap::new(),
        claim_total: HashMap::new(),
        claim_keys: Vec::new(),
        requested: HashMap::new(),
        requested_keys: Vec::new(),
        responses: HashMap::new(),
        response_keys: Vec::new(),
        orphans: Vec::new(),
    };
    assert(evs.take(0) =~= Seq::<SimEvent>::empty());
    assert(integrity_issues(ix.orphans@) =~= Seq::<IntegrityIssue>::empty());
    let n = events.len();
    let mut i: usize = 0;
    while i < n
        invariant
            n == evs.len(),
            evs == events@,
            i <= n,
            integrity_in_range(evs),
            ix.max_day == max_day(evs.take(i as int)),
            ix.cover@ == first_coverage(evs.take(i as int)),
            ix.accepted_day@ == acceptance_days(evs.take(i as int)),
            ix.accepted_subs@ == distinct_keys(evs.take(i as int), |e: SimEvent| acceptance_day(e)),
            ix.accepted_by@ == last_values(evs.take(i as int), |e: SimEvent| acceptance_insurer(e)),
            ix.bound@ == last_values(evs.take(i as int), |e: SimEvent| binding(e)),
            ix.bound_pids@ == distinct_keys(evs.take(i as int), |e: SimEvent| binding(e)),
            forall|p: u64| #[trigger] ix.bind_count@.contains_key(p) <==> ix.bound@.contains_key(p),
            forall|p: u64| #[trigger] ix.bind_count@.contains_key(p) ==> ix.bind_count@[p] == key_count(evs.take(i as int), |e: SimEvent| binding(e), p),
            ix.policy_of@ == policy_of_submission(evs.take(i as int)),
            ix.bound_subs@ == bound_submissions(evs.take(i as int)),
            encodes(ix.losses@, first_values(evs.take(i as int), |e: SimEvent| loss_at(e))),
            encodes_totals(ix.claim_total@, claim_totals(evs.take(i as int))),
            ix.claim_keys@ == distinct_keys(evs.take(i as int), |e: SimEvent| claim_in_year(e)),
            encodes(ix.requested@, first_values(evs.take(i as int), |e: SimEvent| lead_request(e))),
            ix.requested_keys@ == distinct_keys(evs.take(i as int), |e: SimEvent| lead_request(e)),
            encodes_counts(ix.responses@, evs.take(i as int)),
            ix.response_keys@ == distinct_keys(evs.take(i as int), |e: SimEvent| lead_response(e)),
            integrity_issues(ix.orphans@) == orphan_response_issues(evs.take(i as int)),
        decreases n - i,
    {
        let ghost t = evs.take(i as int);
        let ghost t1 = evs.take(i as int + 1);
        proof {
            lemma_take_step(evs, i as int);
            lemma_distinct_keys_dom(t, |e: SimEvent| acceptance_day(e));
            lemma_distinct_keys_dom(t, |e: SimEvent| binding(e));
            lemma_distinct_keys_dom(t, |e: SimEvent| bound_policy(e));
            lemma_distinct_keys_dom(t, |e: SimEvent| claim_in_year(e));
            lemma_distinct_keys_dom(t, |e: SimEvent| lead_request(e));
            lemma_distinct_keys_dom(t, |e: SimEvent| lead_response(e));
            lemma_distinct_keys_dom(t, |e: SimEvent| loss_at(e));
        }
        let day = events[i].day.0;
        if day > ix.max_day {
            ix.max_day = day;
        }
        match &events[i].event {
            Event::CoverageRequested { insured_id, risk } => {
                if !ix.cover.contains_key(&insured_id.0) {
                    ix.cover.insert(insured_id.0, (day, risk.sum_insured));
                }
            },
            Event::QuoteAccepted { submission_id, insurer_id, .. } => {
                if !ix.accepted_day.contains_key(&submission_id.0) {
                    ix.accepted_subs.push(submission_id.0);
                }
                ix.accepted_day.insert(submission_id.0, day);
                ix.accepted_by.insert(submission_id.0, insurer_id.0);
            },
            Event::PolicyBound { policy_id, submission_id, insurer_id, insured_id, sum_insured, .. } => {
                let p = policy_id.0;
                if !ix.policy_of.contains_key(&submission_id.0) {
                    ix.bound_subs.push(submission_id.0);
                }
                ix.policy_of.insert(submission_id.0, p);
                let prior: u32 = match ix.bind_count.get(&p) {
                    Some(c) => *c,
                    None => 0,
                };
                proof {
                    lemma_key_count_bound(t1, |e: SimEvent| binding(e), p);
                }
                if !ix.bound.contains_key(&p) {
                    ix.bound_pids.push(p);
                }
                ix.bind_count.insert(p, prior + 1);
                ix.bound.insert(p, (*sum_insured, insurer_id.0, insured_id.0));
            },
            Event::AssetDamage { insured_id, .. } => {
                let k = make_pair_key(day, insured_id.0);
                proof {
                    lemma_encodes_insert(ix.losses@, first_values(t, |e: SimEvent| loss_at(e)), day, insured_id.0, ());
                }
                if !ix.losses.contains_key(&k) {
                    ix.losses.insert(k, ());
                }
            },
            Event::ClaimSettled { policy_id, amount, .. } => {
                let year = events[i].day.year();
                let k = make_pair_key(policy_id.0, year.0 as u64);
                let ghost sk = (policy_id.0, year.0 as u64);
                proof {
                    lemma_claim_totals_dom(t);
                    assert(claim_totals(t1).contains_key(sk));
                    lemma_claim_totals_prefix(evs, i as int + 1, sk);
                }
                let prior: u64 = match ix.claim_total.get(&k) {
                    Some(c) => *c,
                    None => {
                        ix.claim_keys.push((policy_id.0, year.0 as u64));
                        0
                    },
                };
                ix.claim_total.insert(k, prior + *amount);
                proof {
                    assert forall|a: u64, b: u64| #[trigger]
                        ix.claim_total@.contains_key(pair_key(a, b)) <==> claim_totals(t1).contains_key((a, b)) by {
                        lemma_pair_key_injective(a, b, policy_id.0, year.0 as u64);
                    }
                    assert forall|a: u64, b: u64| #[trigger]
                        claim_totals(t1).contains_key((a, b)) implies ix.claim_total@[pair_key(a, b)] == claim_totals(t1)[(a, b)] by {
                        lemma_pair_key_injective(a, b, policy_id.0, year.0 as u64);
                    }
                }
            },
            Event::LeadQuoteRequested { submission_id, insurer_id, .. } => {
                let k = make_pair_key(submission_id.0, insurer_id.0);
                proof {
                    lemma_encodes_insert(ix.requested@, first_values(t, |e: SimEvent| lead_request(e)), submission_id.0, insurer_id.0, day);
                }
                if !ix.requested.contains_key(&k) {
                    ix.requested.insert(k, day);
                    ix.requested_keys.push((submission_id.0, insurer_id.0));
                }
            },
            Event::LeadQuoteIssued { submission_id, insurer_id, .. } => {
                let k = make_pair_key(submission_id.0, insurer_id.0);
                let ghost old_orphans = ix.orphans@;
                if !ix.requested.contains_key(&k) {
                    ix.orphans.push(
                        IntegrityViolation::LeadQuoteOrphanResponse {
                            submission_id: submission_id.0,
                            insurer_id: insurer_id.0,
                            day,
                            kind: "LeadQuoteIssued".to_owned(),
                        },
                    );
                    assert(integrity_issues(ix.orphans@) =~= integrity_issues(old_orphans).push(ix.orphans@.last()@));
                }
                let prior: u32 = match ix.responses.get(&k) {
                    Some(c) => *c,
                    None => {
                        ix.response_keys.push((submission_id.0, insurer_id.0));
                        0
                    },
                };
                proof {
                    lemma_key_count_bound(t1, |e: SimEvent| lead_response(e), (submission_id.0, insurer_id.0));
                }
                ix.responses.insert(k, prior + 1);
                proof {
                    assert forall|a: u64, b: u64| #[trigger] ix.responses@.contains_key(pair_key(a, b)) implies ix.responses@[pair_key(a, b)] == key_count(t1, |e: SimEvent| lead_response(e), (a, b)) by {
                        lemma_pair_key_injective(a, b, submission_id.0, insurer_id.0);
                    }
                    assert forall|a: u64, b: u64| #[trigger] ix.responses@.contains_key(pair_key(a, b)) <==> last_values(t1, |e: SimEvent| lead_response(e)).contains_key((a, b)) by {
                        lemma_pair_key_injective(a, b, submission_id.0, insurer_id.0);
                    }
                }
            },
            Event::LeadQuoteDeclined { submission_id, insurer_id, .. } => {
                let k = make_pair_key(submission_id.0, insurer_id.0);
                let ghost old_orphans = ix.orphans@;
                if !ix.requested.contains_key(&k) {
                    ix.orphans.push(
                        IntegrityViolation::LeadQuoteOrphanResponse {
                            submission_id: submission_id.0,
                            insurer_id: insurer_id.0,
                            day,
                            kind: "LeadQuoteDeclined".to_owned(),
                        },
                    );
                    assert(integrity_issues(ix.orphans@) =~= integrity_issues(old_orphans).push(ix.orphans@.last()@));
                }
                let prior: u32 = match ix.responses.get(&k) {
                    Some(c) => *c,
                    None => {
                        ix.response_keys.push((submission_id.0, insurer_id.0));
                        0
                    },
                };
                proof {
                    lemma_key_count_bound(t1, |e: SimEvent| lead_response(e), (submission_id.0, insurer_id.0));
                }
                ix.responses.insert(k, prior + 1);
                proof {
                    assert forall|a: u64, b: u64| #[trigger] ix.responses@.contains_key(pair_key(a, b)) implies ix.responses@[pair_key(a, b)] == key_count(t1, |e: SimEvent| lead_response(e), (a, b)) by {
                        lemma_pair_key_injective(a, b, submission_id.0, insurer_id.0);
                    }
                    assert forall|a: u64, b: u64| #[trigger] ix.responses@.contains_key(pair_key(a, b)) <==> last_values(t1, |e: SimEvent| lead_response(e)).contains_key((a, b)) by {
                        lemma_pair_key_injective(a, b, submission_id.0, insurer_id.0);
                    }
                }
            },
            _ => {},
        }
        i = i + 1;
    }
    assert(evs.take(n as int) =~= evs);
    ix
}


fn check_gul(events: &[SimEvent], cover: &HashMap<u64, (u64, u64)>, out: &mut Vec<IntegrityViolation>)
    ensures
        integrity_issues(final(out)@) == integrity_issues(old(out)@) + gul_issues(events@, cover@),
{
    let ghost evs = events@;
    let ghost base = integrity_issues(out@);
    let mut i: usize = 0;
    while i < events.len()
        invariant
            evs == events@,
            i <= evs.len(),
            integrity_issues(out@) == base + gul_issues(evs.take(i as int), cover@),
        decreases evs.len() - i,
    {
        proof {
            lemma_take_step(evs, i as int);
        }
        let ghost prev = out@;
        match &events[i].event {
            Event::AssetDamage { insured_id, peril, ground_up_loss } => {
                match cover.get(&insured_id.0) {
                    Some(c) => {
                        let si = c.1;
                        if *ground_up_loss > si {
                            out.push(
                                IntegrityViolation::GulExceedsSumInsured {
                                    policy_id: insured_id.0,
                                    day: events[i].day.0,
                                    peril: peril_name(*peril),
                                    gul: *ground_up_loss,
                                    sum_insured: si,
                                },
                            );
                            assert(integrity_issues(out@) =~= integrity_issues(prev).push(out@.last()@));
                        }
                    },
                    None => {},
                }
            },
            _ => {},
        }
        i = i + 1;
    }
    assert(evs.take(i as int) =~= evs);
}

fn check_aggregates(
    keys: &Vec<(u64, u64)>,
    totals: &HashMap<u128, u64>,
    bound: &HashMap<u64, (u64, u64, u64)>,
    Ghost(spec_totals): Ghost<Map<(u64, u64), nat>>,
    out: &mut Vec<IntegrityViolation>,
)
    requires
        encodes_totals(totals@, spec_totals),
        forall|k: (u64, u64)| #[trigger] keys@.contains(k) ==> spec_totals.contains_key(k),
        forall|k: (u64, u64)| #[trigger] keys@.contains(k) ==> k.1 <= u32::MAX,
    ensures
        integrity_issues(final(out)@) == integrity_issues(old(out)@) + aggregate_issues(keys@, spec_totals, bound@),
{
    let ghost base = integrity_issues(out@);
    let mut j: usize = 0;
    while j < keys.len()
        invariant
            j <= keys@.len(),
            encodes_totals(totals@, spec_totals),
            forall|k: (u64, u64)| #[trigger] keys@.contains(k) ==> spec_totals.contains_key(k),
            forall|k: (u64, u64)| #[trigger] keys@.contains(k) ==> k.1 <= u32::MAX,
            integrity_issues(out@) == base + aggregate_issues(keys@.take(j as int), spec_totals, bound@),
        decreases keys@.len() - j,
    {
        assert(keys@.take(j as int + 1).drop_last() =~= keys@.take(j as int));
        let ghost prev = out@;
        let (p, y) = keys[j];
        assert(keys@.contains((p, y)));
        let agg = *totals.get(&make_pair_key(p, y)).unwrap();
        match bound.get(&p) {
            Some(b) => {
                let si = b.0;
                if agg > si {
                    out.push(
                        IntegrityViolation::AggregateClaimExceedsSumInsured {
                            policy_id: p,
                            year: y as u32,
                            aggregate: agg,
                            sum_insured: si,
                        },
                    );
                    assert(integrity_issues(out@) =~= integrity_issues(prev).push(out@.last()@));
                }
            },
            None => {},
        }
        j = j + 1;
    }
    assert(keys@.take(j as int) =~= keys@);
}

fn check_claims(
    events: &[SimEvent],
    bound: &HashMap<u64, (u64, u64, u64)>,
    losses: &HashMap<u128, ()>,
    Ghost(spec_losses): Ghost<Map<(u64, u64), ()>>,
    out: &mut Vec<IntegrityViolation>,
)
    requires
        encodes(losses@, spec_losses),
    ensures
        integrity_issues(final(out)@) == integrity_issues(old(out)@) + claim_issues(events@, bound@, spec_losses),
{
    let ghost evs = events@;
    let ghost base = integrity_issues(out@);
    let mut i: usize = 0;
    while i < events.len()
        invariant
            evs == events@,
            i <= evs.len(),
            encodes(losses@, spec_losses),
            integrity_issues(out@) == base + claim_issues(evs.take(i as int), bound@, spec_losses),
        decreases evs.len() - i,
    {
        proof {
            lemma_take_step(evs, i as int);
        }
        let ghost prev = out@;
        let day = events[i].day.0;
        match &events[i].event {
            Event::ClaimSettled { policy_id, insurer_id, amount, .. } => {
                let p = policy_id.0;
                let matched = match bound.get(&p) {
                    Some(b) => losses.contains_key(&make_pair_key(day, b.2)),
                    None => false,
                };
                if !matched {
                    out.push(IntegrityViolation::ClaimWithoutMatchingLoss { policy_id: p, day });
                }
                let ghost after_a = out@;
                assert(integrity_issues(after_a) =~= integrity_issues(prev) + (if matched {
                    Seq::<IntegrityIssue>::empty()
                } else {
                    seq![IntegrityIssue::ClaimWithoutMatchingLoss { policy_id: p, day }]
                }));
                if *amount == 0 {
                    out.push(IntegrityViolation::ClaimAmountZero { policy_id: p, day });
                }
                let ghost after_b = out@;
                assert(integrity_issues(after_b) =~= integrity_issues(after_a) + (if *amount == 0 {
                    seq![IntegrityIssue::ClaimAmountZero { policy_id: p, day }]
                } else {
                    Seq::<IntegrityIssue>::empty()
                }));
                match bound.get(&p) {
                    Some(b) => {
                        let bound_insurer = b.1;
                        if insurer_id.0 != bound_insurer {
                            out.push(
                                IntegrityViolation::ClaimInsurerMismatch {
                                    policy_id: p,
                                    day,
                                    claim_insurer: insurer_id.0,
                                    bound_insurer,
                                },
                            );
                        }
                    },
                    None => {},
                }
                assert(integrity_issues(out@) =~= integrity_issues(after_b) + (if bound@.contains_key(p) && insurer_id.0 != bound@[p].1 {
                    seq![IntegrityIssue::ClaimInsurerMismatch { policy_id: p, day, claim_insurer: insurer_id.0, bound_insurer: bound@[p].1 }]
                } else {
                    Seq::<IntegrityIssue>::empty()
                }));
            },
            _ => {},
        }
        i = i + 1;
    }
    assert(evs.take(i as int) =~= evs);
}

fn check_unbound(
    subs: &Vec<u64>,
    accepted: &HashMap<u64, u64>,
    policy_of: &HashMap<u64, u64>,
    last_day: u64,
    out: &mut Vec<IntegrityViolation>,
)
    requires
        forall|k: u64| #[trigger] subs@.contains(k) ==> accepted@.contains_key(k),
    ensures
        integrity_issues(final(out)@) == integrity_issues(old(out)@) + unbound_issues(subs@, accepted@, policy_of@, last_day),
{
    let ghost base = integrity_issues(out@);
    let mut j: usize = 0;
    while j < subs.len()
        invariant
            j <= subs@.len(),
            forall|k: u64| #[trigger] subs@.contains(k) ==> accepted@.contains_key(k),
            integrity_issues(out@) == base + unbound_issues(subs@.take(j as int), accepted@, policy_of@, last_day),
        decreases subs@.len() - j,
    {
        assert(subs@.take(j as int + 1).drop_last() =~= subs@.take(j as int));
        let ghost prev = out@;
        let sub = subs[j];
        assert(subs@.contains(sub));
        let acc_day = *accepted.get(&sub).unwrap();
        if acc_day < last_day && !policy_of.contains_key(&sub) {
            out.push(IntegrityViolation::QuoteAcceptedWithoutPolicyBound { submission_id: sub, accepted_day: acc_day });
            assert(integrity_issues(out@) =~= integrity_issues(prev).push(out@.last()@));
        }
        j = j + 1;
    }
    assert(subs@.take(j as int) =~= subs@);
}

fn check_binders(
    subs: &Vec<u64>,
    policy_of: &HashMap<u64, u64>,
    accepted_by: &HashMap<u64, u64>,
    bound: &HashMap<u64, (u64, u64, u64)>,
    out: &mut Vec<IntegrityViolation>,
)
    requires
        forall|k: u64| #[trigger] subs@.contains(k) ==> policy_of@.contains_key(k),
    ensures
        integrity_issues(final(out)@) == integrity_issues(old(out)@) + binder_issues(subs@, policy_of@, accepted_by@, bound@),
{
    let ghost base = integrity_issues(out@);
    let mut j: usize = 0;
    while j < subs.len()
        invariant
            j <= subs@.len(),
            forall|k: u64| #[trigger] subs@.contains(k) ==> policy_of@.contains_key(k),
            integrity_issues(out@) == base + binder_issues(subs@.take(j as int), policy_of@, accepted_by@, bound@),
        decreases subs@.len() - j,
    {
        assert(subs@.take(j as int + 1).drop_last() =~= subs@.take(j as int));
        let ghost prev = out@;
        let sub = subs[j];
        assert(subs@.contains(sub));
        let p = *policy_of.get(&sub).unwrap();
        match (accepted_by.get(&sub), bound.get(&p)) {
            (Some(quoted), Some(b)) => {
                if *quoted != b.1 {
                    out.push(
                        IntegrityViolation::PolicyBoundInsurerMismatch {
                            submission_id: sub,
                            policy_id: p,
                            bound_insurer: b.1,
                            accepted_insurer: *quoted,
                        },
                    );
                    assert(integrity_issues(out@) =~= integrity_issues(prev).push(out@.last()@));
                }
            },
            _ => {},
        }
        j = j + 1;
    }
    assert(subs@.take(j as int) =~= subs@);
}

fn check_duplicate_binds(
    pids: &Vec<u64>,
    counts: &HashMap<u64, u32>,
    Ghost(s): Ghost<Seq<SimEvent>>,
    out: &mut Vec<IntegrityViolation>,
)
    requires
        forall|k: u64| #[trigger] pids@.contains(k) ==> counts@.contains_key(k),
        forall|p: u64| #[trigger] counts@.contains_key(p) ==> counts@[p] == key_count(s, |e: SimEvent| binding(e), p),
    ensures
        integrity_issues(final(out)@) == integrity_issues(old(out)@) + duplicate_bind_issues(pids@, s),
{
    let ghost base = integrity_issues(out@);
    let mut j: usize = 0;
    while j < pids.len()
        invariant
            j <= pids@.len(),
            forall|k: u64| #[trigger] pids@.contains(k) ==> counts@.contains_key(k),
            forall|p: u64| #[trigger] counts@.contains_key(p) ==> counts@[p] == key_count(s, |e: SimEvent| binding(e), p),
            integrity_issues(out@) == base + duplicate_bind_issues(pids@.take(j as int), s),
        decreases pids@.len() - j,
    {
        assert(pids@.take(j as int + 1).drop_last() =~= pids@.take(j as int));
        let ghost prev = out@;
        let p = pids[j];
        assert(pids@.contains(p));
        let c = *counts.get(&p).unwrap();
        if c > 1 {
            out.push(IntegrityViolation::DuplicatePolicyBound { policy_id: p });
            assert(integrity_issues(out@) =~= integrity_issues(prev).push(out@.last()@));
        }
        j = j + 1;
    }
    assert(pids@.take(j as int) =~= pids@);
}

fn check_expiries(events: &[SimEvent], bound: &HashMap<u64, (u64, u64, u64)>, out: &mut Vec<IntegrityViolation>)
    ensures
        integrity_issues(final(out)@) == integrity_issues(old(out)@) + expiry_issues(events@, bound@),
{
    let ghost evs = events@;
    let ghost base = integrity_issues(out@);
    let mut i: usize = 0;
    while i < events.len()
        invariant
            evs == events@,
            i <= evs.len(),
            integrity_issues(out@) == base + expiry_issues(evs.take(i as int), bound@),
        decreases evs.len() - i,
    {
        proof {
            lemma_take_step(evs, i as int);
        }
        let ghost prev = out@;
        match &events[i].event {
            Event::PolicyExpired { policy_id } => {
                if !bound.contains_key(&policy_id.0) {
                    out.push(IntegrityViolation::PolicyExpiredWithoutBound { policy_id: policy_id.0 });
                    assert(integrity_issues(out@) =~= integrity_issues(prev).push(out@.last()@));
                }
            },
            _ => {},
        }
        i = i + 1;
    }
    assert(evs.take(i as int) =~= evs);
}

fn check_orphan_requests(
    pairs: &Vec<(u64, u64)>,
    requested: &HashMap<u128, u64>,
    responses: &HashMap<u128, u32>,
    Ghost(spec_requested): Ghost<Map<(u64, u64), u64>>,
    Ghost(s): Ghost<Seq<SimEvent>>,
    out: &mut Vec<IntegrityViolation>,
)
    requires
        encodes(requested@, spec_requested),
        encodes_counts(responses@, s),
        forall|k: (u64, u64)| #[trigger] pairs@.contains(k) ==> spec_requested.contains_key(k),
    ensures
        integrity_issues(final(out)@) == integrity_issues(old(out)@) + orphan_request_issues(
            pairs@,
            spec_requested,
            last_values(s, |e: SimEvent| lead_response(e)),
        ),
{
    let ghost base = integrity_issues(out@);
    let ghost responded = last_values(s, |e: SimEvent| lead_response(e));
    let mut j: usize = 0;
    while j < pairs.len()
        invariant
            j <= pairs@.len(),
            encodes(requested@, spec_requested),
            encodes_counts(responses@, s),
            responded == last_values(s, |e: SimEvent| lead_response(e)),
            forall|k: (u64, u64)| #[trigger] pairs@.contains(k) ==> spec_requested.contains_key(k),
            integrity_issues(out@) == base + orphan_request_issues(pairs@.take(j as int), spec_requested, responded),
        decreases pairs@.len() - j,
    {
        assert(pairs@.take(j as int + 1).drop_last() =~= pairs@.take(j as int));
        let ghost prev = out@;
        let (a, b) = pairs[j];
        assert(pairs@.contains((a, b)));
        let k = make_pair_key(a, b);
        let req_day = *requested.get(&k).unwrap();
        if !responses.contains_key(&k) {
            out.push(IntegrityViolation::LeadQuoteOrphanRequest { submission_id: a, insurer_id: b, day: req_day });
            assert(integrity_issues(out@) =~= integrity_issues(prev).push(out@.last()@));
        }
        j = j + 1;
    }
    assert(pairs@.take(j as int) =~= pairs@);
}

fn check_duplicate_responses(
    pairs: &Vec<(u64, u64)>,
    responses: &HashMap<u128, u32>,
    Ghost(s): Ghost<Seq<SimEvent>>,
    out: &mut Vec<IntegrityViolation>,
)
    requires
        encodes_counts(responses@, s),
        forall|k: (u64, u64)| #[trigger] pairs@.contains(k) ==> last_values(s, |e: SimEvent| lead_response(e)).contains_key(k),
    ensures
        integrity_issues(final(out)@) == integrity_issues(old(out)@) + duplicate_response_issues(pairs@, s),
{
    let ghost base = integrity_issues(out@);
    let mut j: usize = 0;
    while j < pairs.len()
        invariant
            j <= pairs@.len(),
            encodes_counts(responses@, s),
            forall|k: (u64, u64)| #[trigger] pairs@.contains(k) ==> last_values(s, |e: SimEvent| lead_response(e)).contains_key(k),
            integrity_issues(out@) == base + duplicate_response_issues(pairs@.take(j as int), s),
        decreases pairs@.len() - j,
    {
        assert(pairs@.take(j as int + 1).drop_last() =~= pairs@.take(j as int));
        let ghost prev = out@;
        let (a, b) = pairs[j];
        assert(pairs@.contains((a, b)));
        let c = *responses.get(&make_pair_key(a, b)).unwrap();
        if c > 1 {
            out.push(IntegrityViolation::LeadQuoteDuplicateResponse { submission_id: a, insurer_id: b, count: c });
            assert(integrity_issues(out@) =~= integrity_issues(prev).push(out@.last()@));
        }
        j = j + 1;
    }
    assert(pairs@.take(j as int) =~= pairs@);
}

/// Check the twelve structural integrity invariants. Returns one item per violation
/// found, check by check; checks that go over a set of keys take the keys in the
/// order they first appear in the stream.
pub fn verify_integrity(events: &[SimEvent]) -> (violations: Vec<IntegrityViolation>)
    requires
        integrity_in_range(events@),
    ensures
        integrity_issues(violations@) == integrity_findings(events@),
{
    let ghost s = events@;
    let ix = build_index(events);
    proof {
        lemma_distinct_keys_dom(s, |e: SimEvent| acceptance_day(e));
        lemma_distinct_keys_dom(s, |e: SimEvent| binding(e));
        lemma_distinct_keys_dom(s, |e: SimEvent| bound_policy(e));
        lemma_distinct_keys_dom(s, |e: SimEvent| claim_in_year(e));
        lemma_distinct_keys_dom(s, |e: SimEvent| lead_request(e));
        lemma_distinct_keys_dom(s, |e: SimEvent| lead_response(e));
        lemma_claim_totals_dom(s);
        assert forall|k: (u64, u64)| #[trigger] ix.claim_keys@.contains(k) implies k.1 <= u32::MAX by {
            lemma_claim_year_bound(s, k);
        }
    }
    let mut violations: Vec<IntegrityViolation> = Vec::new();
    assert(integrity_issues(violations@) =~= Seq::<IntegrityIssue>::empty());
    check_gul(events, &ix.cover, &mut violations);
    check_aggregates(&ix.claim_keys, &ix.claim_total, &ix.bound, Ghost(claim_totals(s)), &mut violations);
    check_claims(events, &ix.bound, &ix.losses, Ghost(first_values(s, |e: SimEvent| loss_at(e))), &mut violations);
    check_unbound(&ix.accepted_subs, &ix.accepted_day, &ix.policy_of, ix.max_day, &mut violations);
    check_binders(&ix.bound_subs, &ix.policy_of, &ix.accepted_by, &ix.bound, &mut violations);
    check_duplicate_binds(&ix.bound_pids, &ix.bind_count, Ghost(s), &mut violations);
    check_expiries(events, &ix.bound, &mut violations);
    check_orphan_requests(
        &ix.requested_keys,
        &ix.requested,
        &ix.responses,
        Ghost(first_values(s, |e: SimEvent| lead_request(e))),
        Ghost(s),
        &mut violations,
    );
    check_duplicate_responses(&ix.response_keys, &ix.responses, Ghost(s), &mut violations);
    let ghost before = integrity_issues(violations@);
    let mut orphans = ix.orphans;
    violations.append(&mut orphans);
    assert(integrity_issues(violations@) =~= before + orphan_response_issues(s));
    violations
}

// ── Claims and their losses ──────────────────────────────────────────────────

/// No finding of `x` is a claim without a matching loss.
spec fn no_unmatched_claim(x: Seq<IntegrityIssue>) -> bool {
    forall|i: int| 0 <= i < x.len() ==> !((#[trigger] x[i]) is ClaimWithoutMatchingLoss)
}

/// No finding of `x` reports the claim on policy `p` on day `d` as unmatched.
spec fn claim_not_reported(x: Seq<IntegrityIssue>, p: u64, d: u64) -> bool {
    forall|i: int| 0 <= i < x.len() ==> #[trigger] x[i] != (IntegrityIssue::ClaimWithoutMatchingLoss { policy_id: p, day: d })
}

proof fn lemma_no_unmatched_push(prev: Seq<IntegrityIssue>)
    requires
        no_unmatched_claim(prev),
    ensures
        forall|x: IntegrityIssue| !(x is ClaimWithoutMatchingLoss) ==> #[trigger] no_unmatched_claim(prev.push(x)),
{
    assert forall|x: IntegrityIssue| !(x is ClaimWithoutMatchingLoss) implies #[trigger] no_unmatched_claim(prev.push(x)) by {
        assert forall|i: int| 0 <= i < prev.push(x).len() implies !((#[trigger] prev.push(x)[i]) is ClaimWithoutMatchingLoss) by {
            if i < prev.len() {
                assert(prev.push(x)[i] == prev[i]);
            }
        }
    }
}

proof fn lemma_gul_no_claims(s: Seq<SimEvent>, cover: Map<u64, (u64, u64)>)
    ensures
        no_unmatched_claim(gul_issues(s, cover)),
    decreases s.len(),
{
    if s.len() > 0 {
        lemma_gul_no_claims(s.drop_last(), cover);
        lemma_no_unmatched_push(gul_issues(s.drop_last(), cover));
    }
}

proof fn lemma_aggregate_no_claims(keys: Seq<(u64, u64)>, totals: Map<(u64, u64), nat>, bound: Map<u64, (u64, u64, u64)>)
    ensures
        no_unmatched_claim(aggregate_issues(keys, totals, bound)),
    decreases keys.len(),
{
    if keys.len() > 0 {
        lemma_aggregate_no_claims(keys.drop_last(), totals, bound);
        lemma_no_unmatched_push(aggregate_issues(keys.drop_last(), totals, bound));
    }
}

proof fn lemma_unbound_no_claims(subs: Seq<u64>, accepted: Map<u64, u64>, policy_of: Map<u64, u64>, last_day: u64)
    ensures
        no_unmatched_claim(unbound_issues(subs, accepted, policy_of, last_day)),
    decreases subs.len(),
{
    if subs.len() > 0 {
        lemma_unbound_no_claims(subs.drop_last(), accepted, policy_of, last_day);
        lemma_no_unmatched_push(unbound_issues(subs.drop_last(), accepted, policy_of, last_day));
    }
}

proof fn lemma_binder_no_claims(
    subs: Seq<u64>,
    policy_of: Map<u64, u64>,
    accepted_by: Map<u64, u64>,
    bound: Map<u64, (u64, u64, u64)>,
)
    ensures
        no_unmatched_claim(binder_issues(subs, policy_of, accepted_by, bound)),
    decreases subs.len(),
{
    if subs.len() > 0 {
        lemma_binder_no_claims(subs.drop_last(), policy_of, accepted_by, bound);
        lemma_no_unmatched_push(binder_issues(subs.drop_last(), policy_of, accepted_by, bound));
    }
}

proof fn lemma_duplicate_bind_no_claims(pids: Seq<u64>, s: Seq<SimEvent>)
    ensures
        no_unmatched_claim(duplicate_bind_issues(pids, s)),
    decreases pids.len(),
{
    if pids.len() > 0 {
        lemma_duplicate_bind_no_claims(pids.drop_last(), s);
        lemma_no_unmatched_push(duplicate_bind_issues(pids.drop_last(), s));
    }
}

proof fn lemma_expiry_no_claims(s: Seq<SimEvent>, bound: Map<u64, (u64, u64, u64)>)
    ensures
        no_unmatched_claim(expiry_issues(s, bound)),
    decreases s.len(),
{
    if s.len() > 0 {
        lemma_expiry_no_claims(s.drop_last(), bound);
        lemma_no_unmatched_push(expiry_issues(s.drop_last(), bound));
    }
}

proof fn lemma_orphan_request_no_claims(
    pairs: Seq<(u64, u64)>,
    requested: Map<(u64, u64), u64>,
    responded: Map<(u64, u64), Seq<char>>,
)
    ensures
        no_unmatched_claim(orphan_request_issues(pairs, requested, responded)),
    decreases pairs.len(),
{
    if pairs.len() > 0 {
        lemma_orphan_request_no_claims(pairs.drop_last(), requested, responded);
        lemma_no_unmatched_push(orphan_request_issues(pairs.drop_last(), requested, responded));
    }
}

proof fn lemma_duplicate_response_no_claims(pairs: Seq<(u64, u64)>, s: Seq<SimEvent>)
    ensures
        no_unmatched_claim(duplicate_response_issues(pairs, s)),
    decreases pairs.len(),
{
    if pairs.len() > 0 {
        lemma_duplicate_response_no_claims(pairs.drop_last(), s);
        lemma_no_unmatched_push(duplicate_response_issues(pairs.drop_last(), s));
    }
}

proof fn lemma_orphan_response_no_claims(s: Seq<SimEvent>)
    ensures
        no_unmatched_claim(orphan_response_issues(s)),
    decreases s.len(),
{
    if s.len() > 0 {
        lemma_orphan_response_no_claims(s.drop_last());
        lemma_no_unmatched_push(orphan_response_issues(s.drop_last()));
    }
}

/// The claims check never reports the claim on `p` on day `d` as unmatched when the
/// bound insured of `p` has a loss on day `d`.
proof fn lemma_claim_issues_matched(
    s: Seq<SimEvent>,
    bound: Map<u64, (u64, u64, u64)>,
    losses: Map<(u64, u64), ()>,
    p: u64,
    d: u64,
)
    requires
        bound.contains_key(p),
        losses.contains_key((d, bound[p].2)),
    ensures
        claim_not_reported(claim_issues(s, bound, losses), p, d),
    decreases s.len(),
{
    if s.len() > 0 {
        lemma_claim_issues_matched(s.drop_last(), bound, losses, p, d);
        let prev = claim_issues(s.drop_last(), bound, losses);
        let x = claim_issues(s, bound, losses);
        assert forall|i: int| 0 <= i < x.len() implies #[trigger] x[i] != (IntegrityIssue::ClaimWithoutMatchingLoss { policy_id: p, day: d }) by {
            if i < prev.len() {
                assert(x[i] == prev[i]);
            }
        }
    }
}

/// The claims check reports the claim at `s[c]`, on policy `p` on day `d`, as unmatched
/// when the bound insured of `p` has no loss on day `d`.
proof fn lemma_claim_issues_unmatched(
    s: Seq<SimEvent>,
    bound: Map<u64, (u64, u64, u64)>,
    losses: Map<(u64, u64), ()>,
    c: int,
    p: u64,
    d: u64,
)
    requires
        0 <= c < s.len(),
        s[c].event is ClaimSettled,
        s[c].event->ClaimSettled_policy_id.0 == p,
        s[c].day.0 == d,
        !(bound.contains_key(p) && losses.contains_key((d, bound[p].2))),
    ensures
        claim_issues(s, bound, losses).contains(IntegrityIssue::ClaimWithoutMatchingLoss { policy_id: p, day: d }),
    decreases s.len(),
{
    let v = IntegrityIssue::ClaimWithoutMatchingLoss { policy_id: p, day: d };
    let prev = claim_issues(s.drop_last(), bound, losses);
    let x = claim_issues(s, bound, losses);
    if c < s.len() - 1 {
        assert(s.drop_last()[c] == s[c]);
        lemma_claim_issues_unmatched(s.drop_last(), bound, losses, c, p, d);
        let i = choose|i: int| 0 <= i < prev.len() && prev[i] == v;
        assert(s.last().event is ClaimSettled ==> x[i] == prev[i]);
        assert(!(s.last().event is ClaimSettled) ==> x == prev);
        assert(x[i] == v);
    } else {
        assert(s.last() == s[c]);
        assert(x[prev.len() as int] == v);
    }
}

/// A claim is matched by a loss of its policy's insured on the claim day, whoever the
/// insurer: when policy `p` was last bound (at `s[b]`) for an insured who suffers an
/// asset damage on day `d` (at `s[m]`), the integrity audit never reports a claim on
/// `p` on day `d` as lacking its loss.
pub proof fn lemma_claim_matched_by_insured_loss(s: Seq<SimEvent>, p: u64, d: u64, b: int, m: int)
    requires
        0 <= b < s.len(),
        s[b].event is PolicyBound,
        s[b].event->PolicyBound_policy_id.0 == p,
        forall|j: int|
            b < j < s.len() ==> !((#[trigger] s[j]).event is PolicyBound && s[j].event->PolicyBound_policy_id.0 == p),
        0 <= m < s.len(),
        s[m].event is AssetDamage,
        s[m].event->AssetDamage_insured_id == s[b].event->PolicyBound_insured_id,
        s[m].day.0 == d,
    ensures
        !integrity_findings(s).contains(IntegrityIssue::ClaimWithoutMatchingLoss { policy_id: p, day: d }),
{
    let fb = |e: SimEvent| binding(e);
    let fl = |e: SimEvent| loss_at(e);
    assert(selects(fb, s[b], p));
    assert forall|j: int| b < j < s.len() implies !selects(fb, #[trigger] s[j], p) by {
        assert(!(s[j].event is PolicyBound && s[j].event->PolicyBound_policy_id.0 == p));
    }
    lemma_last_value_at(s, fb, b, p);
    let bound = last_values(s, fb);
    let i = s[b].event->PolicyBound_insured_id.0;
    assert(bound[p].2 == i);
    assert(selects(fl, s[m], (d, i)));
    lemma_first_values_keys(s, fl, (d, i));
    let losses = first_values(s, fl);
    lemma_claim_issues_matched(s, bound, losses, p, d);
    let cover = first_coverage(s);
    lemma_gul_no_claims(s, cover);
    lemma_aggregate_no_claims(distinct_keys(s, |e: SimEvent| claim_in_year(e)), claim_totals(s), bound);
    lemma_unbound_no_claims(distinct_keys(s, |e: SimEvent| acceptance_day(e)), acceptance_days(s), policy_of_submission(s), max_day(s));
    lemma_binder_no_claims(bound_submissions(s), policy_of_submission(s), last_values(s, |e: SimEvent| acceptance_insurer(e)), bound);
    lemma_duplicate_bind_no_claims(distinct_keys(s, |e: SimEvent| binding(e)), s);
    lemma_expiry_no_claims(s, bound);
    let requested = first_values(s, |e: SimEvent| lead_request(e));
    let responded = last_values(s, |e: SimEvent| lead_response(e));
    lemma_orphan_request_no_claims(distinct_keys(s, |e: SimEvent| lead_request(e)), requested, responded);
    lemma_duplicate_response_no_claims(distinct_keys(s, |e: SimEvent| lead_response(e)), s);
    lemma_orphan_response_no_claims(s);
    let g = gul_issues(s, cover);
    let ag = aggregate_issues(distinct_keys(s, |e: SimEvent| claim_in_year(e)), claim_totals(s), bound);
    let cl = claim_issues(s, bound, losses);
    let un = unbound_issues(distinct_keys(s, |e: SimEvent| acceptance_day(e)), acceptance_days(s), policy_of_submission(s), max_day(s));
    let bi = binder_issues(bound_submissions(s), policy_of_submission(s), last_values(s, |e: SimEvent| acceptance_insurer(e)), bound);
    let db = duplicate_bind_issues(distinct_keys(s, |e: SimEvent| binding(e)), s);
    let ex = expiry_issues(s, bound);
    let orq = orphan_request_issues(distinct_keys(s, |e: SimEvent| lead_request(e)), requested, responded);
    let dr = duplicate_response_issues(distinct_keys(s, |e: SimEvent| lead_response(e)), s);
    let ors = orphan_response_issues(s);
    lemma_not_reported_concat(g, ag, p, d);
    lemma_not_reported_concat(g + ag, cl, p, d);
    lemma_not_reported_concat(g + ag + cl, un, p, d);
    lemma_not_reported_concat(g + ag + cl + un, bi, p, d);
    lemma_not_reported_concat(g + ag + cl + un + bi, db, p, d);
    lemma_not_reported_concat(g + ag + cl + un + bi + db, ex, p, d);
    lemma_not_reported_concat(g + ag + cl + un + bi + db + ex, orq, p, d);
    lemma_not_reported_concat(g + ag + cl + un + bi + db + ex + orq, dr, p, d);
    lemma_not_reported_concat(g + ag + cl + un + bi + db + ex + orq + dr, ors, p, d);
    let all = integrity_findings(s);
    assert(all == g + ag + cl + un + bi + db + ex + orq + dr + ors);
    let v = IntegrityIssue::ClaimWithoutMatchingLoss { policy_id: p, day: d };
    if all.contains(v) {
        let i = choose|i: int| 0 <= i < all.len() && all[i] == v;
        assert(all[i] != v);
    }
}

/// Findings free of unmatched claims, and findings that do not report this one, stay so
/// when joined.
proof fn lemma_not_reported_concat(x: Seq<IntegrityIssue>, y: Seq<IntegrityIssue>, p: u64, d: u64)
    requires
        no_unmatched_claim(x) || claim_not_reported(x, p, d),
        no_unmatched_claim(y) || claim_not_reported(y, p, d),
    ensures
        claim_not_reported(x + y, p, d),
{
    assert forall|i: int| 0 <= i < (x + y).len() implies #[trigger] (x + y)[i] != (IntegrityIssue::ClaimWithoutMatchingLoss { policy_id: p, day: d }) by {
        if i < x.len() {
            assert((x + y)[i] == x[i]);
        } else {
            assert((x + y)[i] == y[i - x.len()]);
        }
    }
}

/// A claim lacking a loss of its policy's insured on the claim day is reported: when
/// policy `p` was last bound (at `s[b]`) for an insured who suffers no asset damage on day
/// `d`, a claim on `p` on day `d` (at `s[c]`) is reported as lacking its loss.
pub proof fn lemma_claim_without_insured_loss_reported(s: Seq<SimEvent>, p: u64, d: u64, b: int, c: int)
    requires
        0 <= b < s.len(),
        s[b].event is PolicyBound,
        s[b].event->PolicyBound_policy_id.0 == p,
        forall|j: int|
            b < j < s.len() ==> !((#[trigger] s[j]).event is PolicyBound && s[j].event->PolicyBound_policy_id.0 == p),
        forall|m: int|
            0 <= m < s.len() ==> !((#[trigger] s[m]).event is AssetDamage && s[m].event->AssetDamage_insured_id
                == s[b].event->PolicyBound_insured_id && s[m].day.0 == d),
        0 <= c < s.len(),
        s[c].event is ClaimSettled,
        s[c].event->ClaimSettled_policy_id.0 == p,
        s[c].day.0 == d,
    ensures
        integrity_findings(s).contains(IntegrityIssue::ClaimWithoutMatchingLoss { policy_id: p, day: d }),
{
    let fb = |e: SimEvent| binding(e);
    let fl = |e: SimEvent| loss_at(e);
    assert(selects(fb, s[b], p));
    assert forall|j: int| b < j < s.len() implies !selects(fb, #[trigger] s[j], p) by {
        assert(!(s[j].event is PolicyBound && s[j].event->PolicyBound_policy_id.0 == p));
    }
    lemma_last_value_at(s, fb, b, p);
    let bound = last_values(s, fb);
    let i = s[b].event->PolicyBound_insured_id.0;
    assert(bound[p].2 == i);
    lemma_first_values_keys(s, fl, (d, i));
    assert forall|m: int| 0 <= m < s.len() implies !(#[trigger] selects(fl, s[m], (d, i))) by {
        assert(!(s[m].event is AssetDamage && s[m].event->AssetDamage_insured_id == s[b].event->PolicyBound_insured_id
            && s[m].day.0 == d));
    }
    let losses = first_values(s, fl);
    lemma_claim_issues_unmatched(s, bound, losses, c, p, d);
    let cover = first_coverage(s);
    let requested = first_values(s, |e: SimEvent| lead_request(e));
    let responded = last_values(s, |e: SimEvent| lead_response(e));
    let g = gul_issues(s, cover);
    let ag = aggregate_issues(distinct_keys(s, |e: SimEvent| claim_in_year(e)), claim_totals(s), bound);
    let cl = claim_issues(s, bound, losses);
    let rest = unbound_issues(distinct_keys(s, |e: SimEvent| acceptance_day(e)), acceptance_days(s), policy_of_submission(s), max_day(s))
        + binder_issues(bound_submissions(s), policy_of_submission(s), last_values(s, |e: SimEvent| acceptance_insurer(e)), bound)
        + duplicate_bind_issues(distinct_keys(s, |e: SimEvent| binding(e)), s) + expiry_issues(s, bound)
        + orphan_request_issues(distinct_keys(s, |e: SimEvent| lead_request(e)), requested, responded)
        + duplicate_response_issues(distinct_keys(s, |e: SimEvent| lead_response(e)), s) + orphan_response_issues(s);
    let all = integrity_findings(s);
    assert(all =~= g + ag + cl + rest);
    let v = IntegrityIssue::ClaimWithoutMatchingLoss { policy_id: p, day: d };
    let k = choose|k: int| 0 <= k < cl.len() && cl[k] == v;
    assert(all[g.len() + ag.len() + k] == v);
}

} // verus!
