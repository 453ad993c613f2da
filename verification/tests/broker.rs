use rins::broker::{top_ranked, Broker};
use rins::config::ASSET_VALUE;
use rins::events::{Event, Peril, Risk};
use rins::types::{Day, InsuredId, InsurerId, SubmissionId};

fn small_risk() -> Risk {
    Risk {
        sum_insured: ASSET_VALUE,
        territory: "US-SE".to_string(),
        perils_covered: vec![Peril::WindstormAtlantic, Peril::Attritional],
    }
}

fn broker_with_insurers(insurer_ids: Vec<u64>) -> Broker {
    let qps = insurer_ids.len().max(1);
    Broker::new(insurer_ids.into_iter().map(InsurerId).collect(), qps)
}

fn broker_with_qps(insurer_ids: Vec<u64>, qps: usize) -> Broker {
    Broker::new(insurer_ids.into_iter().map(InsurerId).collect(), qps)
}

/// Standing from relationship scores net of declines: the dense rank of the net score,
/// highest first (0 = best).
fn standing(scores: &[f64], declines: &[u64]) -> Vec<u64> {
    let net: Vec<f64> = scores.iter().zip(declines).map(|(s, d)| s - *d as f64).collect();
    let mut distinct = net.clone();
    distinct.sort_by(|a, b| b.partial_cmp(a).unwrap());
    distinct.dedup();
    net.iter().map(|v| distinct.iter().position(|d| d == v).unwrap() as u64).collect()
}

fn request(broker: &mut Broker, scores: &[f64], day: u64, insured: u64) -> Vec<(Day, Event)> {
    let st = standing(scores, broker.decline_counts());
    broker.on_coverage_requested(Day(day), InsuredId(insured), small_risk(), &st)
}

fn lead_of(events: &[(Day, Event)]) -> InsurerId {
    match &events[0].1 {
        Event::LeadQuoteRequested { insurer_id, .. } => *insurer_id,
        other => panic!("expected LeadQuoteRequested, got {other:?}"),
    }
}

#[test]
fn on_coverage_requested_emits_exactly_one_lead_quote_requested() {
    let mut broker = broker_with_insurers(vec![1, 2]);
    let events = request(&mut broker, &[0.0, 0.0], 0, 1);
    assert_eq!(events.len(), 1);
    assert!(matches!(events[0].1, Event::LeadQuoteRequested { .. }));
}

#[test]
fn on_coverage_requested_routes_to_highest_scorer() {
    let mut broker = broker_with_qps(vec![1, 2, 3], 2);
    let scores = [5.0, 0.0, 0.0];
    for id in 1..=3u64 {
        let events = request(&mut broker, &scores, 0, id);
        assert_eq!(events.len(), 1);
        assert_eq!(lead_of(&events), InsurerId(1), "high-score insurer must be the lead");
    }
}

#[test]
fn on_coverage_requested_single_insurer_still_works() {
    let mut broker = broker_with_insurers(vec![7]);
    let events = request(&mut broker, &[0.0], 0, 1);
    assert_eq!(events.len(), 1);
    assert_eq!(lead_of(&events), InsurerId(7));
}

#[test]
fn on_coverage_requested_still_increments_submission_id() {
    let mut broker = broker_with_insurers(vec![1]);
    let mut ids = vec![];
    for id in 1..=3u64 {
        let events = request(&mut broker, &[0.0], 0, id);
        if let Event::LeadQuoteRequested { submission_id, .. } = events[0].1 {
            ids.push(submission_id.0);
        }
    }
    assert_eq!(ids, vec![0, 1, 2], "submission_id must increment per request");
}

#[test]
fn on_coverage_requested_scheduled_day_plus_one() {
    let mut broker = broker_with_insurers(vec![1]);
    let events = request(&mut broker, &[0.0], 5, 1);
    assert_eq!(events[0].0, Day(6), "LeadQuoteRequested must fire at day+1");
}

#[test]
fn on_coverage_requested_carries_correct_fields() {
    let mut broker = broker_with_insurers(vec![7]);
    let events = broker.on_coverage_requested(Day(0), InsuredId(42), small_risk(), &vec![0]);
    if let Event::LeadQuoteRequested { submission_id, insured_id, insurer_id, risk } = &events[0].1 {
        assert_eq!(*insured_id, InsuredId(42));
        assert_eq!(*insurer_id, InsurerId(7));
        assert_eq!(*submission_id, SubmissionId(0));
        assert_eq!(risk.sum_insured, ASSET_VALUE);
        assert_eq!(risk.territory, "US-SE");
        assert_eq!(risk.perils_covered, vec![Peril::WindstormAtlantic, Peril::Attritional]);
    } else {
        panic!("expected LeadQuoteRequested");
    }
    assert!(broker.is_pending(SubmissionId(0)));
}

#[test]
fn on_coverage_requested_round_robin() {
    let mut broker = broker_with_qps(vec![1, 2, 3], 1);
    let mut assigned: Vec<u64> = vec![];
    for id in 1..=6u64 {
        let events = request(&mut broker, &[0.0, 0.0, 0.0], 0, id);
        assert_eq!(events.len(), 1);
        assigned.push(lead_of(&events).0);
    }
    assert_eq!(assigned, vec![1, 2, 3, 1, 2, 3], "round-robin must cycle 1,2,3,1,2,3");
}

#[test]
fn on_coverage_requested_empty_insurers_returns_empty() {
    let mut broker = broker_with_insurers(vec![]);
    let events = broker.on_coverage_requested(Day(0), InsuredId(1), small_risk(), &vec![]);
    assert!(events.is_empty(), "no insurers → no LeadQuoteRequested");
    assert!(!broker.is_pending(SubmissionId(0)));
}

#[test]
fn on_lead_quote_issued_returns_quote_presented_when_single_candidate() {
    let mut broker = broker_with_insurers(vec![1]);
    request(&mut broker, &[0.0], 0, 1);
    let events = broker.on_lead_quote_issued(Day(1), SubmissionId(0), InsuredId(1), InsurerId(1), 50_000);
    assert_eq!(events.len(), 1);
    assert!(matches!(
        events[0].1,
        Event::QuotePresented { submission_id: SubmissionId(0), insured_id: InsuredId(1), insurer_id: InsurerId(1), premium: 50_000 }
    ));
    assert!(!broker.is_pending(SubmissionId(0)));
}

#[test]
fn on_lead_quote_issued_scheduled_day_plus_one() {
    let mut broker = broker_with_insurers(vec![1]);
    request(&mut broker, &[0.0], 0, 1);
    let events = broker.on_lead_quote_issued(Day(1), SubmissionId(0), InsuredId(1), InsurerId(1), 50_000);
    assert_eq!(events[0].0, Day(2), "QuotePresented must fire at day+1 from LeadQuoteIssued");
}

#[test]
fn on_lead_quote_issued_unknown_submission_returns_empty() {
    let mut broker = broker_with_insurers(vec![1]);
    let events = broker.on_lead_quote_issued(Day(1), SubmissionId(99), InsuredId(1), InsurerId(1), 50_000);
    assert!(events.is_empty());
}

#[test]
fn lead_decline_retries_next_candidate_as_lead() {
    let mut broker = broker_with_insurers(vec![1, 2]);
    request(&mut broker, &[0.0, 0.0], 0, 1);
    let events = broker.on_lead_quote_declined(Day(1), SubmissionId(0), InsurerId(1));
    assert_eq!(events.len(), 1, "lead decline must emit LeadQuoteRequested for next candidate");
    assert_eq!(lead_of(&events), InsurerId(2), "next candidate must become lead");
}

#[test]
fn lead_decline_all_candidates_exhausted_emits_submission_dropped() {
    let mut broker = broker_with_insurers(vec![1, 2]);
    request(&mut broker, &[0.0, 0.0], 0, 1);
    broker.on_lead_quote_declined(Day(1), SubmissionId(0), InsurerId(1));
    let events = broker.on_lead_quote_declined(Day(1), SubmissionId(0), InsurerId(2));
    assert_eq!(events.len(), 1);
    assert!(
        matches!(events[0].1, Event::SubmissionDropped { insured_id: InsuredId(1), .. }),
        "expected SubmissionDropped, got {:?}",
        events[0].1
    );
    assert_eq!(events[0].0, Day(1));
    assert!(!broker.is_pending(SubmissionId(0)));
}

#[test]
fn lead_decline_retry_emits_same_day_as_decline() {
    let mut broker = broker_with_insurers(vec![1, 2]);
    request(&mut broker, &[0.0, 0.0], 0, 1);
    let events = broker.on_lead_quote_declined(Day(5), SubmissionId(0), InsurerId(1));
    assert_eq!(events[0].0, Day(5), "retry LeadQuoteRequested must be same day as decline");
}

#[test]
fn lead_decline_with_single_candidate_drops_submission() {
    let mut broker = broker_with_qps(vec![1, 2], 1);
    request(&mut broker, &[0.0, 0.0], 0, 1);
    let events = broker.on_lead_quote_declined(Day(1), SubmissionId(0), InsurerId(1));
    assert_eq!(events.len(), 1);
    assert!(matches!(events[0].1, Event::SubmissionDropped { .. }));
}

#[test]
fn second_lead_fills_panel_after_first_declines() {
    let mut broker = broker_with_insurers(vec![1, 2]);
    request(&mut broker, &[0.0, 0.0], 0, 1);
    let ev_retry = broker.on_lead_quote_declined(Day(1), SubmissionId(0), InsurerId(1));
    assert!(matches!(ev_retry[0].1, Event::LeadQuoteRequested { insurer_id: InsurerId(2), .. }));
    let ev_issued = broker.on_lead_quote_issued(Day(1), SubmissionId(0), InsuredId(1), InsurerId(2), 50_000);
    assert_eq!(ev_issued.len(), 1);
    if let Event::QuotePresented { insurer_id, premium, .. } = &ev_issued[0].1 {
        assert_eq!(*insurer_id, InsurerId(2));
        assert_eq!(*premium, 50_000);
    } else {
        panic!("expected QuotePresented");
    }
}

#[test]
fn high_score_insurer_preferred_when_k_lt_n() {
    let mut broker = broker_with_qps(vec![1, 2, 3], 1);
    for id in 1..=3u64 {
        let events = request(&mut broker, &[5.0, 0.0, 0.0], 0, id);
        assert_eq!(events.len(), 1);
        assert_eq!(lead_of(&events), InsurerId(1), "high-score insurer must always be selected");
    }
}

#[test]
fn low_decline_insurer_preferred_when_k_lt_n() {
    let mut broker = broker_with_qps(vec![1, 2], 1);
    for i in 0..5u64 {
        let result = broker.on_lead_quote_declined(Day(0), SubmissionId(1000 + i), InsurerId(1));
        assert!(result.is_empty(), "unknown submission → no events");
    }
    assert_eq!(broker.decline_counts(), &vec![5, 0]);
    let events = request(&mut broker, &[0.0, 0.0], 10, 1);
    assert_eq!(events.len(), 1);
    assert_eq!(lead_of(&events), InsurerId(2), "low-decline insurer must be preferred");
}

#[test]
fn decline_counts_reset_at_year_end() {
    let mut broker = broker_with_qps(vec![1, 2], 1);
    request(&mut broker, &[0.0, 0.0], 0, 1);
    broker.on_lead_quote_declined(Day(1), SubmissionId(0), InsurerId(1));
    broker.on_year_end();
    assert_eq!(broker.decline_counts(), &vec![0, 0]);
    let ev1 = request(&mut broker, &[0.0, 0.0], 360, 1);
    let ev2 = request(&mut broker, &[0.0, 0.0], 360, 1);
    assert_ne!(lead_of(&ev1), lead_of(&ev2), "after year-end reset, round-robin must cycle both insurers");
}

#[test]
fn decline_from_outside_the_pool_is_not_counted() {
    let mut broker = broker_with_qps(vec![1, 2], 1);
    broker.on_lead_quote_declined(Day(0), SubmissionId(7), InsurerId(9));
    assert_eq!(broker.decline_counts(), &vec![0, 0]);
}

#[test]
fn added_insurer_joins_the_rotation() {
    let mut broker = broker_with_qps(vec![1], 1);
    broker.add_insurer(InsurerId(42));
    assert_eq!(broker.insurer_ids(), &vec![InsurerId(1), InsurerId(42)]);
    assert_eq!(broker.decline_counts(), &vec![0, 0]);
    let a = request(&mut broker, &[0.0, 0.0], 0, 1);
    let b = request(&mut broker, &[0.0, 0.0], 0, 2);
    assert_eq!((lead_of(&a), lead_of(&b)), (InsurerId(1), InsurerId(42)));
}

#[test]
fn top_ranked_orders_by_standing_then_round_robin() {
    // Standing 1 for all but index 3 (best); ties broken from start index 2.
    let order = top_ranked(&vec![1, 1, 1, 0, 1], 2, 5);
    assert_eq!(order, vec![3, 2, 4, 0, 1]);
    let top2 = top_ranked(&vec![1, 1, 1, 0, 1], 2, 2);
    assert_eq!(top2, vec![3, 2]);
    assert!(top_ranked(&vec![0, 0], 1, 0).is_empty());
}

#[test]
fn on_lead_quote_issued_carries_correct_fields() {
    let mut broker = broker_with_insurers(vec![7]);
    broker.on_coverage_requested(Day(0), InsuredId(42), small_risk(), &vec![0]);
    let events = broker.on_lead_quote_issued(Day(1), SubmissionId(0), InsuredId(42), InsurerId(7), 75_000);
    if let Event::QuotePresented { submission_id, insured_id, insurer_id, premium } = &events[0].1 {
        assert_eq!(*submission_id, SubmissionId(0));
        assert_eq!(*insured_id, InsuredId(42));
        assert_eq!(*insurer_id, InsurerId(7));
        assert_eq!(*premium, 75_000);
    } else {
        panic!("expected QuotePresented");
    }
}

#[test]
fn on_lead_quote_issued_finalises_when_no_followers_available() {
    // Two insurers but only one solicited: the lead's quote is presented at once.
    let mut broker = broker_with_qps(vec![1, 2], 1);
    request(&mut broker, &[0.0, 0.0], 0, 1);
    let events = broker.on_lead_quote_issued(Day(1), SubmissionId(0), InsuredId(1), InsurerId(1), 50_000);
    assert_eq!(events.len(), 1);
    assert!(matches!(events[0].1, Event::QuotePresented { insurer_id: InsurerId(1), premium: 50_000, .. }));
    // A second response for the closed submission produces nothing.
    assert!(broker.on_lead_quote_issued(Day(1), SubmissionId(0), InsuredId(1), InsurerId(1), 50_000).is_empty());
}

#[test]
fn single_insurer_full_line_degenerates_to_old_behaviour() {
    let mut broker = broker_with_insurers(vec![1]);
    request(&mut broker, &[0.0], 0, 1);
    let events = broker.on_lead_quote_issued(Day(1), SubmissionId(0), InsuredId(1), InsurerId(1), 50_000);
    assert_eq!(events.len(), 1);
    assert_eq!(events[0].0, Day(2));
    if let Event::QuotePresented { insurer_id, premium, .. } = &events[0].1 {
        assert_eq!(*insurer_id, InsurerId(1));
        assert_eq!(*premium, 50_000);
    } else {
        panic!("expected QuotePresented");
    }
}

#[test]
fn full_solicitation_asks_every_insurer_once() {
    let mut broker = broker_with_qps(vec![1, 2, 3], 5);
    let first = broker.on_coverage_requested(Day(0), InsuredId(1), small_risk(), &vec![2, 0, 1]);
    let mut leads = vec![lead_of(&first)];
    loop {
        let events = broker.on_lead_quote_declined(Day(1), SubmissionId(0), *leads.last().unwrap());
        match &events[0].1 {
            Event::LeadQuoteRequested { insurer_id, .. } => leads.push(*insurer_id),
            Event::SubmissionDropped { .. } => break,
            other => panic!("unexpected {other:?}"),
        }
    }
    assert_eq!(leads, vec![InsurerId(2), InsurerId(3), InsurerId(1)]);
    assert_eq!(top_ranked(&vec![0, 0, 0, 0], 2, 4), vec![2, 3, 0, 1]);
}
