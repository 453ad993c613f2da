use rins::events::{Event, Peril, Risk, SimEvent};
use rins::stats::{analyse, runs_by_year, YearStats};
use rins::types::{Day, InsuredId, InsurerId, PolicyId, SubmissionId, Year};

fn sim_ev(day: u64, event: Event) -> SimEvent {
    SimEvent { day: Day(day), event }
}

fn sim_start() -> SimEvent {
    sim_ev(0, Event::SimulationStart { year_start: Year(1), warmup_years: 0, analysis_years: 1 })
}

fn empty_capitals() -> Vec<(InsurerId, u64)> {
    Vec::new()
}

fn bound(day: u64, premium: u64, sum_insured: u64) -> SimEvent {
    sim_ev(
        day,
        Event::PolicyBound {
            policy_id: PolicyId(1),
            submission_id: SubmissionId(1),
            insured_id: InsuredId(1),
            insurer_id: InsurerId(1),
            premium,
            sum_insured,
            total_cat_exposure: 1_000,
        },
    )
}

fn claim(day: u64, insurer: u64, amount: u64, remaining_capital: u64) -> SimEvent {
    sim_ev(
        day,
        Event::ClaimSettled {
            policy_id: PolicyId(1),
            insurer_id: InsurerId(insurer),
            amount,
            peril: Peril::WindstormAtlantic,
            remaining_capital,
        },
    )
}

/// Pure loss ratio: claims over bound premium, zero when nothing was bound.
fn loss_ratio(s: &YearStats) -> f64 {
    if s.bound_premium == 0 {
        0.0
    } else {
        s.claims as f64 / s.bound_premium as f64
    }
}

/// Rate on line: bound premium over sum insured, zero when nothing was insured.
fn rate_on_line(s: &YearStats) -> f64 {
    if s.sum_insured == 0 {
        0.0
    } else {
        s.bound_premium as f64 / s.sum_insured as f64
    }
}

#[test]
fn test_quiet_year_zero_claims() {
    let events = vec![sim_start(), bound(10, 100, 1_000), sim_ev(359, Event::YearEnd { year: Year(1) })];
    let (_, stats) = analyse(&events, &empty_capitals());
    assert_eq!(stats.len(), 1);
    assert_eq!(stats[0].year, 1);
    assert_eq!(stats[0].claims, 0);
    assert!((loss_ratio(&stats[0]) - 0.0).abs() < f64::EPSILON);
}

#[test]
fn test_loss_ratio_exact() {
    let events = vec![sim_start(), bound(10, 100, 1_000), claim(50, 1, 50, 950), sim_ev(359, Event::YearEnd { year: Year(1) })];
    let (_, stats) = analyse(&events, &empty_capitals());
    assert_eq!(stats.len(), 1);
    assert!((loss_ratio(&stats[0]) - 0.5).abs() < 1e-10);
}

#[test]
fn test_rate_on_line_exact() {
    let events = vec![sim_start(), bound(10, 100, 1_000), sim_ev(359, Event::YearEnd { year: Year(1) })];
    let (_, stats) = analyse(&events, &empty_capitals());
    assert!((rate_on_line(&stats[0]) - 0.10).abs() < 1e-10);
}

#[test]
fn test_cat_event_count() {
    let events = vec![
        sim_start(),
        sim_ev(50, Event::LossEvent { event_id: 1, peril: Peril::WindstormAtlantic, territory: "US-SE".to_string() }),
        sim_ev(80, Event::LossEvent { event_id: 2, peril: Peril::WindstormAtlantic, territory: "US-SE".to_string() }),
        sim_ev(80, Event::AssetDamage { insured_id: InsuredId(1), peril: Peril::Attritional, ground_up_loss: 500 }),
        sim_ev(359, Event::YearEnd { year: Year(1) }),
    ];
    let (_, stats) = analyse(&events, &empty_capitals());
    assert_eq!(stats[0].cat_event_count, 2);
    assert_eq!(stats[0].attr_gul, 500);
    assert_eq!(stats[0].cat_gul, 0);
}

#[test]
fn test_capital_carry_forward() {
    let initials = vec![(InsurerId(1), 1_000u64)];
    let events = vec![
        sim_start(),
        claim(50, 1, 200, 800),
        sim_ev(359, Event::YearEnd { year: Year(1) }),
        sim_ev(719, Event::YearEnd { year: Year(2) }),
    ];
    let (_, stats) = analyse(&events, &initials);
    let y1 = stats.iter().find(|s| s.year == 1).expect("year 1 missing");
    let y2 = stats.iter().find(|s| s.year == 2).expect("year 2 missing");
    assert_eq!(y1.total_capital, 800);
    assert_eq!(y2.total_capital, 800, "capital must carry forward when no new claims");
}

#[test]
fn test_insolvent_counted_per_year() {
    let events = vec![
        sim_start(),
        sim_ev(359, Event::YearEnd { year: Year(1) }),
        sim_ev(719, Event::YearEnd { year: Year(2) }),
        sim_ev(800, Event::InsurerInsolvent { insurer_id: InsurerId(1) }),
        sim_ev(1079, Event::YearEnd { year: Year(3) }),
        sim_ev(1439, Event::YearEnd { year: Year(4) }),
    ];
    let (_, stats) = analyse(&events, &empty_capitals());
    let y3 = stats.iter().find(|s| s.year == 3).expect("year 3 missing");
    let y4 = stats.iter().find(|s| s.year == 4).expect("year 4 missing");
    assert_eq!(y3.insolvent_count, 1);
    assert_eq!(y4.insolvent_count, 0);
}

#[test]
fn test_warmup_years_excluded() {
    let events = vec![
        sim_ev(0, Event::SimulationStart { year_start: Year(1), warmup_years: 2, analysis_years: 2 }),
        sim_ev(359, Event::YearEnd { year: Year(1) }),
        sim_ev(719, Event::YearEnd { year: Year(2) }),
        bound(800, 100, 1_000),
        sim_ev(1079, Event::YearEnd { year: Year(3) }),
    ];
    let (warmup, stats) = analyse(&events, &empty_capitals());
    assert_eq!(warmup, 2);
    assert!(stats.iter().all(|s| s.year > 2), "warmup years must be excluded");
    assert!(stats.iter().any(|s| s.year == 3), "year 3 must be present");
}

#[test]
fn years_come_out_in_order_whatever_the_stream_order() {
    let events = vec![
        sim_ev(1079, Event::YearEnd { year: Year(3) }),
        bound(10, 5, 50),
        sim_ev(719, Event::SubmissionDropped { submission_id: SubmissionId(1), insured_id: InsuredId(1) }),
        sim_ev(0, Event::YearStart { year: Year(1) }),
    ];
    let (warmup, stats) = analyse(&events, &empty_capitals());
    assert_eq!(warmup, 0);
    let years: Vec<u32> = stats.iter().map(|s| s.year).collect();
    assert_eq!(years, vec![1, 2, 3]);
    assert_eq!(stats[0].bound_premium, 5);
    assert_eq!(stats[0].sum_insured, 50);
    assert_eq!(stats[1].dropped_count, 1);
}

#[test]
fn assets_count_each_insured_once_a_year() {
    let risk = || Risk { sum_insured: 700, territory: "US-SE".to_string(), perils_covered: vec![Peril::Attritional] };
    let events = vec![
        sim_ev(5, Event::CoverageRequested { insured_id: InsuredId(1), risk: risk() }),
        sim_ev(6, Event::CoverageRequested { insured_id: InsuredId(1), risk: risk() }),
        sim_ev(7, Event::CoverageRequested { insured_id: InsuredId(2), risk: risk() }),
        sim_ev(365, Event::CoverageRequested { insured_id: InsuredId(1), risk: risk() }),
    ];
    let (_, stats) = analyse(&events, &empty_capitals());
    assert_eq!(stats.len(), 2);
    assert_eq!(stats[0].total_assets, 1_400);
    assert_eq!(stats[1].total_assets, 700);
}

#[test]
fn capital_follows_entries_and_latest_claims() {
    let initials = vec![(InsurerId(1), 1_000u64), (InsurerId(2), 500), (InsurerId(1), 900)];
    let events = vec![
        sim_ev(10, Event::InsurerEntered { insurer_id: InsurerId(3), initial_capital: 300 }),
        claim(20, 2, 100, 400),
        sim_ev(359, Event::YearEnd { year: Year(1) }),
        claim(400, 3, 300, 0),
        sim_ev(719, Event::YearEnd { year: Year(2) }),
    ];
    let (_, stats) = analyse(&events, &initials);
    assert_eq!(stats[0].total_capital, 900 + 400 + 300);
    assert_eq!(stats[0].entrant_count, 1);
    assert_eq!(stats[0].claims, 100);
    assert_eq!(stats[1].total_capital, 900 + 400);
}

#[test]
fn runoff_counts() {
    let events = vec![
        sim_ev(1, Event::InsurerExited { insurer_id: InsurerId(1) }),
        sim_ev(2, Event::InsurerReEntered { insurer_id: InsurerId(1) }),
        sim_ev(3, Event::InsurerExited { insurer_id: InsurerId(2) }),
    ];
    let (_, stats) = analyse(&events, &empty_capitals());
    assert_eq!(stats.len(), 1);
    assert_eq!(stats[0].exit_count, 2);
    assert_eq!(stats[0].re_entry_count, 1);
    assert_eq!(stats[0].total_capital, 0);
}

#[test]
fn every_premium_and_claim_lands_in_exactly_one_year() {
    let events = vec![
        sim_start(),
        bound(10, 100, 1_000),
        bound(400, 250, 2_000),
        claim(420, 1, 30, 0),
        bound(800, 7, 70),
        claim(1000, 1, 5, 0),
        sim_ev(1079, Event::YearEnd { year: Year(3) }),
    ];
    let (_, stats) = analyse(&events, &empty_capitals());
    let premium: u64 = stats.iter().map(|s| s.bound_premium).sum();
    let insured: u64 = stats.iter().map(|s| s.sum_insured).sum();
    let claims: u64 = stats.iter().map(|s| s.claims).sum();
    assert_eq!(premium, 357);
    assert_eq!(insured, 3_070);
    assert_eq!(claims, 35);
    assert_eq!(stats.iter().map(|s| s.year).collect::<Vec<_>>(), vec![1, 2, 3]);
}

fn year_entry(year: u32, premium: u64, claims: u64) -> YearStats {
    let events = vec![
        bound((year as u64 - 1) * 360 + 10, premium, 1_000),
        claim((year as u64 - 1) * 360 + 20, 1, claims, 0),
    ];
    let (_, stats) = analyse(&events, &empty_capitals());
    stats[0]
}

#[test]
fn analyse_distributions_missing_year_filtered() {
    let run1 = vec![year_entry(1, 100, 50), year_entry(2, 100, 50)];
    let run2 = vec![year_entry(1, 100, 80)];
    let grouped = runs_by_year(&vec![run1, run2]);
    assert_eq!(grouped.len(), 1, "year 2 (single-run) must be excluded");
    assert_eq!(grouped[0].0, 1);
    assert_eq!(grouped[0].1.len(), 2);
    assert_eq!(grouped[0].1[0].claims, 50);
    assert_eq!(grouped[0].1[1].claims, 80);
}

#[test]
fn runs_by_year_orders_years_and_keeps_run_order() {
    let run1 = vec![year_entry(3, 1, 1), year_entry(1, 2, 2)];
    let run2 = vec![year_entry(1, 3, 3), year_entry(3, 4, 4), year_entry(2, 5, 5)];
    let run3 = vec![year_entry(3, 6, 6)];
    let grouped = runs_by_year(&vec![run1, run2, run3]);
    let years: Vec<u32> = grouped.iter().map(|g| g.0).collect();
    assert_eq!(years, vec![1, 3]);
    let premiums: Vec<u64> = grouped[1].1.iter().map(|s| s.bound_premium).collect();
    assert_eq!(premiums, vec![1, 4, 6]);
    assert!(runs_by_year(&vec![]).is_empty());
}
