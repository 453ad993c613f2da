use rins::broker::Broker;
use rins::calendar::{
    entry_window_open, first_year_start, initial_request_offsets, next_year_start, quote_response, renewal_day,
    year_end_event, QUOTING_CHAIN_DAYS,
};
use rins::config::ASSET_VALUE;
use rins::events::{Event, Peril, Risk};
use rins::insurer::Insurer;
use rins::market::Market;
use rins::types::{Day, InsuredId, InsurerId, SubmissionId, Year};

#[test]
fn calendar_year_boundaries() {
    assert!(matches!(first_year_start(Year(1)), (Day(0), Event::YearStart { year: Year(1) })));
    assert!(matches!(year_end_event(Year(1)), (Day(359), Event::YearEnd { year: Year(1) })));
    assert!(matches!(next_year_start(Year(1), 3), Some((Day(360), Event::YearStart { year: Year(2) }))));
    assert!(next_year_start(Year(3), 3).is_none());
}

#[test]
fn initial_requests_spread_over_first_180_days() {
    assert_eq!(initial_request_offsets(1), vec![0]);
    assert_eq!(initial_request_offsets(4), vec![0, 45, 90, 135]);
    assert_eq!(initial_request_offsets(7), vec![0, 25, 51, 77, 102, 128, 154]);
    assert!(initial_request_offsets(0).is_empty());
}

#[test]
fn entry_needs_warmup_over_and_cooldown() {
    assert!(!entry_window_open(Year(5), 5, None));
    assert!(entry_window_open(Year(6), 5, None));
    assert!(!entry_window_open(Year(6), 5, Some(6)));
    assert!(entry_window_open(Year(7), 5, Some(6)));
}

#[test]
fn insured_answers_the_same_day() {
    let acc = quote_response(Day(4), SubmissionId(2), InsuredId(3), InsurerId(5), 700, true);
    assert!(matches!(
        acc[0],
        (Day(4), Event::QuoteAccepted { submission_id: SubmissionId(2), insured_id: InsuredId(3), insurer_id: InsurerId(5), premium: 700 })
    ));
    let rej = quote_response(Day(4), SubmissionId(2), InsuredId(3), InsurerId(5), 700, false);
    assert!(matches!(rej[0], (Day(4), Event::QuoteRejected { submission_id: SubmissionId(2), insured_id: InsuredId(3) })));
    assert_eq!(acc.len(), 1);
    assert_eq!(rej.len(), 1);
}

/// The quoting chain, request to binding, takes QUOTING_CHAIN_DAYS, and the renewal it
/// schedules binds on the day the policy expires.
#[test]
fn renewal_binds_on_the_expiry_day() {
    let risk = Risk { sum_insured: ASSET_VALUE, territory: "US-SE".to_string(), perils_covered: vec![Peril::Attritional] };
    let mut broker = Broker::new(vec![InsurerId(1)], 1);
    let insurer = Insurer::new(InsurerId(1), 10_000_000_000);
    let mut market = Market::new();
    let request_day = Day(40);
    let lqr = broker.on_coverage_requested(request_day, InsuredId(1), risk.clone(), &vec![0]);
    let (d1, sid) = match &lqr[0] {
        (d, Event::LeadQuoteRequested { submission_id, .. }) => (*d, *submission_id),
        _ => panic!("expected LeadQuoteRequested"),
    };
    let issued = insurer.on_lead_quote_requested(d1, sid, InsuredId(1), &risk, None, None, 100, 120);
    let d2 = issued[0].0;
    let presented = broker.on_lead_quote_issued(d2, sid, InsuredId(1), InsurerId(1), 120);
    let d3 = presented[0].0;
    let accepted = quote_response(d3, sid, InsuredId(1), InsurerId(1), 120, true);
    let accept_day = accepted[0].0;
    let bound = market.on_quote_accepted(accept_day, sid, InsuredId(1), InsurerId(1), 120, risk.clone(), Year(1));
    let bind_day = bound[0].0;
    let expiry_day = bound[1].0;
    assert_eq!(bind_day.0 - request_day.0, QUOTING_CHAIN_DAYS);
    let renewal = renewal_day(accept_day);
    assert_eq!(renewal.0 + QUOTING_CHAIN_DAYS, expiry_day.0, "renewal must bind on the expiry day");
}
