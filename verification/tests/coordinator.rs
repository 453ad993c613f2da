use rins::config::ASSET_VALUE;
use rins::coordinator::Coordinator;
use rins::events::{Event, Peril, Risk, SimEvent};
use rins::types::{Day, InsuredId, InsurerId, PolicyId, SubmissionId, Year};

fn risk() -> Risk {
    Risk {
        sum_insured: ASSET_VALUE,
        territory: "US-SE".to_string(),
        perils_covered: vec![Peril::WindstormAtlantic, Peril::Attritional],
    }
}

/// Two insurers with 10 bn capital each and `n` insureds in US-SE, one quote per request.
fn market(n: u64) -> Coordinator {
    let books = vec![(InsurerId(1), 10_000_000_000i64), (InsurerId(2), 10_000_000_000i64)];
    let clients = (1..=n).map(|i| (InsuredId(i), risk())).collect();
    Coordinator::new(books, clients, 1, Day::year_end(Year(3)))
}

fn last(c: &Coordinator) -> SimEvent {
    c.log().as_slice().last().expect("something was dispatched").clone()
}

/// Dispatch the next event and return it.
fn next(c: &mut Coordinator) -> SimEvent {
    assert!(c.advance(), "the run should not have stopped");
    last(c)
}

#[test]
fn run_opens_the_first_year_on_day_zero() {
    let mut c = market(1);
    c.start(0, 1);
    let ev = next(&mut c);
    assert_eq!(ev.day, Day(0));
    assert!(matches!(ev.event, Event::SimulationStart { year_start: Year(1), warmup_years: 0, analysis_years: 1 }));
    c.on_simulation_start(Year(1));
    let ev = next(&mut c);
    assert_eq!(ev.day, Day(0));
    assert!(matches!(ev.event, Event::YearStart { year: Year(1) }));
}

#[test]
fn first_year_requests_spread_over_window() {
    let mut c = market(2);
    c.open_year(Year(1));
    c.schedule_year_end(Year(1));
    let a = next(&mut c);
    let b = next(&mut c);
    let e = next(&mut c);
    assert_eq!(a.day, Day(0));
    assert!(matches!(a.event, Event::CoverageRequested { insured_id: InsuredId(1), .. }));
    assert_eq!(b.day, Day(90));
    assert!(matches!(b.event, Event::CoverageRequested { insured_id: InsuredId(2), .. }));
    assert_eq!(e.day, Day(359));
    assert!(matches!(e.event, Event::YearEnd { year: Year(1) }));
}

#[test]
fn later_years_schedule_no_requests() {
    let mut c = market(3);
    c.open_year(Year(2));
    assert!(!c.advance());
}

#[test]
fn attritional_losses_drawn_once_per_insured_per_year() {
    let mut c = market(1);
    let r = risk();
    assert!(c.admit_request(InsuredId(1), &r));
    assert!(!c.admit_request(InsuredId(1), &r));
    assert!(c.admit_request(InsuredId(2), &r));
    assert_eq!(c.market().insureds_in_territory("US-SE").len(), 2);
}

#[test]
fn quote_chain_binds_three_days_after_request() {
    let mut c = market(1);
    c.schedule(Day(10), Event::CoverageRequested { insured_id: InsuredId(1), risk: risk() });
    let req = next(&mut c);
    assert_eq!(req.day, Day(10));
    c.route_request(InsuredId(1), risk(), &vec![0, 0]);

    let lead = next(&mut c);
    assert_eq!(lead.day, Day(11));
    let (sid, insurer) = match lead.event {
        Event::LeadQuoteRequested { submission_id, insurer_id, .. } => (submission_id, insurer_id),
        other => panic!("unexpected {other:?}"),
    };
    assert_eq!(insurer, InsurerId(1));
    c.quote(sid, InsuredId(1), insurer, &risk(), None, None, 50_000_000, 60_000_000);

    let issued = next(&mut c);
    assert_eq!(issued.day, Day(11));
    assert!(matches!(issued.event, Event::LeadQuoteIssued { premium: 60_000_000, atp: 50_000_000, .. }));
    c.issue(sid, InsuredId(1), insurer, 60_000_000);

    let presented = next(&mut c);
    assert_eq!(presented.day, Day(12));
    assert!(matches!(presented.event, Event::QuotePresented { premium: 60_000_000, .. }));
    c.answer(sid, InsuredId(1), insurer, 60_000_000, true);

    let accepted = next(&mut c);
    assert_eq!(accepted.day, Day(12));
    assert!(matches!(accepted.event, Event::QuoteAccepted { .. }));
    c.accept(sid, InsuredId(1), insurer, 60_000_000);

    let bound = next(&mut c);
    assert_eq!(bound.day, Day(13));
    assert!(matches!(bound.event, Event::PolicyBound { policy_id: PolicyId(0), premium: 60_000_000, .. }));
    let renewal = next(&mut c);
    assert_eq!(renewal.day, Day(12 + 358));
    assert!(matches!(renewal.event, Event::CoverageRequested { insured_id: InsuredId(1), .. }));
    let expiry = next(&mut c);
    assert_eq!(expiry.day, Day(373));
    assert!(matches!(expiry.event, Event::PolicyExpired { policy_id: PolicyId(0) }));
    // The renewal, going through the same chain, binds on the day the policy expires.
    assert_eq!(renewal.day.0 + 3, expiry.day.0);
}

#[test]
fn rejected_quote_asks_again_at_renewal_time() {
    let mut c = market(1);
    c.schedule(Day(5), Event::QuoteRejected { submission_id: SubmissionId(0), insured_id: InsuredId(1) });
    next(&mut c);
    c.reject(InsuredId(1));
    let again = next(&mut c);
    assert_eq!(again.day, Day(5 + 358));
    assert!(matches!(again.event, Event::CoverageRequested { insured_id: InsuredId(1), .. }));
}

#[test]
fn dropped_submission_counts_and_asks_again() {
    let mut c = market(1);
    c.schedule(Day(7), Event::SubmissionDropped { submission_id: SubmissionId(0), insured_id: InsuredId(1) });
    next(&mut c);
    c.drop_submission(InsuredId(1));
    assert_eq!(c.year_figures(), (0, 0, 1));
    let again = next(&mut c);
    assert_eq!(again.day, Day(7 + 358));
    c.open_year(Year(2));
    assert_eq!(c.year_figures(), (0, 0, 0));
}

#[test]
fn non_client_renewal_changes_nothing() {
    let mut c = market(1);
    c.reject(InsuredId(99));
    assert!(!c.advance());
}

#[test]
fn declined_lead_passes_to_next_candidate_same_day() {
    let books = vec![(InsurerId(1), 10_000_000_000i64), (InsurerId(2), 10_000_000_000i64)];
    let mut c = Coordinator::new(books, vec![(InsuredId(1), risk())], 2, Day::year_end(Year(3)));
    c.schedule(Day(20), Event::CoverageRequested { insured_id: InsuredId(1), risk: risk() });
    next(&mut c);
    c.route_request(InsuredId(1), risk(), &vec![0, 0]);
    let lead = next(&mut c);
    let sid = match lead.event {
        Event::LeadQuoteRequested { submission_id, insurer_id, .. } => {
            assert_eq!(insurer_id, InsurerId(1));
            submission_id
        }
        other => panic!("unexpected {other:?}"),
    };
    // Insurer 1's line is too small for the risk.
    c.quote(sid, InsuredId(1), InsurerId(1), &risk(), Some(1), None, 1, 1);
    let declined = next(&mut c);
    assert!(matches!(declined.event, Event::LeadQuoteDeclined { insurer_id: InsurerId(1), .. }));
    c.decline(sid, InsurerId(1));
    assert_eq!(c.broker().decline_counts().clone(), vec![1, 0]);
    let second = next(&mut c);
    assert_eq!(second.day, Day(21));
    assert!(matches!(second.event, Event::LeadQuoteRequested { insurer_id: InsurerId(2), .. }));
}

/// Accept a quote from insurer 1 for insured 1 on day 30 and dispatch the binding.
fn bound_market() -> Coordinator {
    let mut c = market(1);
    c.schedule(Day(30), Event::QuoteAccepted {
        submission_id: SubmissionId(0),
        insured_id: InsuredId(1),
        insurer_id: InsurerId(1),
        premium: 80_000_000,
    });
    next(&mut c);
    c.accept(SubmissionId(0), InsuredId(1), InsurerId(1), 80_000_000);
    let bound = next(&mut c);
    assert!(matches!(bound.event, Event::PolicyBound { total_cat_exposure: 0, .. }));
    c.bind(PolicyId(0), 80_000_000, 52_480_000);
    c
}

#[test]
fn bound_policy_reports_cat_exposure_in_log() {
    let c = bound_market();
    match last(&c).event {
        Event::PolicyBound { total_cat_exposure, sum_insured, .. } => {
            assert_eq!(total_cat_exposure, ASSET_VALUE);
            assert_eq!(sum_insured, ASSET_VALUE);
        }
        other => panic!("unexpected {other:?}"),
    }
    let book = c.book(InsurerId(1)).expect("insurer 1 has a book");
    assert_eq!(book.capital(), 10_000_000_000 + 52_480_000);
    assert_eq!(book.cat_aggregate(), ASSET_VALUE);
    assert_eq!(c.year_figures(), (80_000_000, 0, 0));
    assert!(c.market().is_in_force(PolicyId(0)));
}

#[test]
fn settled_claim_reports_remaining_capital_in_log() {
    let mut c = bound_market();
    c.schedule(Day(100), Event::AssetDamage { insured_id: InsuredId(1), peril: Peril::WindstormAtlantic, ground_up_loss: 1_000_000 });
    next(&mut c);
    c.damage(InsuredId(1), Peril::WindstormAtlantic, 1_000_000);
    let claim = next(&mut c);
    assert_eq!(claim.day, Day(100));
    assert!(matches!(claim.event, Event::ClaimSettled { amount: 1_000_000, remaining_capital: 0, .. }));
    c.settle(InsurerId(1), 1_000_000, Peril::WindstormAtlantic);
    match last(&c).event {
        Event::ClaimSettled { remaining_capital, .. } => {
            assert_eq!(remaining_capital, (10_000_000_000i64 + 52_480_000 - 1_000_000) as u64)
        }
        other => panic!("unexpected {other:?}"),
    }
    assert_eq!(c.year_figures(), (80_000_000, 1_000_000, 0));
}

#[test]
fn exhausting_claim_schedules_insolvency_notice() {
    let books = vec![(InsurerId(1), 500i64)];
    let mut c = Coordinator::new(books, vec![], 1, Day::year_end(Year(1)));
    c.schedule(Day(3), Event::ClaimSettled {
        policy_id: PolicyId(0),
        insurer_id: InsurerId(1),
        amount: 800,
        peril: Peril::Attritional,
        remaining_capital: 0,
    });
    next(&mut c);
    c.settle(InsurerId(1), 800, Peril::Attritional);
    let notice = next(&mut c);
    assert_eq!(notice.day, Day(3));
    assert!(matches!(notice.event, Event::InsurerInsolvent { insurer_id: InsurerId(1) }));
    assert!(c.book(InsurerId(1)).unwrap().is_insolvent());
}

#[test]
fn expiry_releases_cat_exposure_and_policy() {
    let mut c = bound_market();
    let expiry = next(&mut c);
    assert!(matches!(expiry.event, Event::CoverageRequested { .. }));
    let expiry = next(&mut c);
    assert!(matches!(expiry.event, Event::PolicyExpired { policy_id: PolicyId(0) }));
    c.expire(PolicyId(0));
    assert_eq!(c.book(InsurerId(1)).unwrap().cat_aggregate(), 0);
    assert!(!c.market().is_in_force(PolicyId(0)));
}

#[test]
fn catastrophe_damages_each_struck_insured_the_same_day() {
    let mut c = market(2);
    c.schedule(Day(50), Event::LossEvent { event_id: 0, peril: Peril::WindstormAtlantic, territory: "US-SE".to_string() });
    next(&mut c);
    c.strike(Peril::WindstormAtlantic, vec![(InsuredId(1), 0), (InsuredId(2), 7)]);
    let first = next(&mut c);
    assert_eq!(first.day, Day(50));
    assert!(matches!(first.event, Event::AssetDamage { insured_id: InsuredId(1), ground_up_loss: 0, .. }));
    let hit = next(&mut c);
    assert_eq!(hit.day, Day(50));
    assert!(matches!(hit.event, Event::AssetDamage { insured_id: InsuredId(2), ground_up_loss: 7, .. }));
    assert!(!c.advance());
}

#[test]
fn entrant_joins_pool_and_is_logged_same_day() {
    let mut c = market(1);
    c.schedule(Day(359), Event::YearEnd { year: Year(1) });
    next(&mut c);
    c.admit_insurer(InsurerId(3), 15_000_000_000);
    assert_eq!(c.broker().insurer_ids().clone(), vec![InsurerId(1), InsurerId(2), InsurerId(3)]);
    assert_eq!(c.book(InsurerId(3)).unwrap().capital(), 15_000_000_000);
    let entered = next(&mut c);
    assert_eq!(entered.day, Day(359));
    assert!(matches!(entered.event, Event::InsurerEntered { insurer_id: InsurerId(3), initial_capital: 15_000_000_000 }));
    c.schedule_next_year(Year(1), 3);
    let ys = next(&mut c);
    assert_eq!(ys.day, Day(360));
    assert!(matches!(ys.event, Event::YearStart { year: Year(2) }));
}

#[test]
fn year_end_closes_books_and_retires_unwritable() {
    let mut c = bound_market();
    let capital = 10_000_000_000i64 + 52_480_000;
    c.distribute(InsurerId(9), 1, 0);
    c.distribute(InsurerId(1), 1_000, capital);
    assert_eq!(c.book(InsurerId(1)).unwrap().capital(), capital);
    c.distribute(InsurerId(1), 1_000, 0);
    assert_eq!(c.book(InsurerId(1)).unwrap().capital(), capital - 1_000);
    c.close_book(InsurerId(1));
    assert_eq!(c.book(InsurerId(1)).unwrap().year_to_date().premium, 0);
    c.close_broker_year();
    c.check_book(InsurerId(2), Some(1), ASSET_VALUE);
    assert!(c.book(InsurerId(2)).unwrap().is_insolvent());

    let paid = next(&mut c);
    assert_eq!(paid.day, Day(31));
    assert!(matches!(
        paid.event,
        Event::CapitalDistributed { insurer_id: InsurerId(1), amount: 1_000, remaining_capital: 10_052_479_000 }
    ));
    let report = next(&mut c);
    assert_eq!(report.day, Day(31));
    assert!(matches!(
        report.event,
        Event::YearEndCapital {
            insurer_id: InsurerId(1),
            capital: 10_052_479_000,
            initial_capital: 10_000_000_000,
            ytd_premium: 80_000_000,
            ytd_claims: 0
        }
    ));
    let notice = next(&mut c);
    assert!(matches!(notice.event, Event::InsurerInsolvent { insurer_id: InsurerId(2) }));
}

#[test]
fn backfill_keeps_earlier_entries() {
    let mut c = market(1);
    c.schedule(Day(30), Event::QuoteAccepted {
        submission_id: SubmissionId(0),
        insured_id: InsuredId(1),
        insurer_id: InsurerId(1),
        premium: 80_000_000,
    });
    next(&mut c);
    c.accept(SubmissionId(0), InsuredId(1), InsurerId(1), 80_000_000);
    next(&mut c);
    let before: Vec<String> = c.log().as_slice().iter().map(|e| format!("{e:?}")).collect();
    c.bind(PolicyId(0), 80_000_000, 80_000_000);
    let after: Vec<String> = c.log().as_slice().iter().map(|e| format!("{e:?}")).collect();
    assert_eq!(before.len(), after.len());
    assert_eq!(before[..before.len() - 1], after[..after.len() - 1]);
    assert_ne!(before.last(), after.last());
    assert_eq!(last(&c).day, Day(31));
}

#[test]
fn dispatched_log_is_day_ordered() {
    let books = vec![(InsurerId(1), 10_000_000_000i64), (InsurerId(2), 10_000_000_000i64)];
    let clients = (1..=3).map(|i| (InsuredId(i), risk())).collect();
    let mut c = Coordinator::new(books, clients, 1, Day::year_end(Year(1)));
    c.start(0, 1);
    next(&mut c);
    c.on_simulation_start(Year(1));
    next(&mut c);
    c.open_year(Year(1));
    c.schedule_year_end(Year(1));
    while c.advance() {
        let ev = last(&c);
        match ev.event {
            Event::CoverageRequested { insured_id, risk } => {
                c.admit_request(insured_id, &risk);
                c.route_request(insured_id, risk, &vec![0, 0]);
            }
            Event::LeadQuoteRequested { submission_id, insured_id, insurer_id, risk } => {
                c.quote(submission_id, insured_id, insurer_id, &risk, None, None, 40_000_000, 50_000_000);
            }
            Event::LeadQuoteIssued { submission_id, insured_id, insurer_id, premium, .. } => {
                c.issue(submission_id, insured_id, insurer_id, premium);
            }
            Event::QuotePresented { submission_id, insured_id, insurer_id, premium } => {
                c.answer(submission_id, insured_id, insurer_id, premium, true);
            }
            Event::QuoteAccepted { submission_id, insured_id, insurer_id, premium } => {
                c.accept(submission_id, insured_id, insurer_id, premium);
            }
            Event::PolicyBound { policy_id, premium, .. } => c.bind(policy_id, premium, premium as i64),
            _ => {}
        }
    }
    let days: Vec<u64> = c.log().as_slice().iter().map(|e| e.day.0).collect();
    let mut sorted = days.clone();
    sorted.sort_unstable();
    assert_eq!(days, sorted);
    assert!(days.iter().all(|d| *d <= Day::year_end(Year(1)).0));
    assert_eq!(c.year_figures().0, 3 * 50_000_000);
    assert_eq!(c.market().policy_count(), 3);
}
