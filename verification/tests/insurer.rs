use rins::config::ASSET_VALUE;
use rins::events::{DeclineReason, Event, Peril, Risk};
use rins::insurer::Insurer;
use rins::types::{Day, InsuredId, InsurerId, PolicyId, SubmissionId};

fn small_risk() -> Risk {
    Risk {
        sum_insured: ASSET_VALUE,
        territory: "US-SE".to_string(),
        perils_covered: vec![Peril::WindstormAtlantic, Peril::Attritional],
    }
}

fn cat_risk() -> Risk {
    Risk {
        sum_insured: ASSET_VALUE,
        territory: "US-SE".to_string(),
        perils_covered: vec![Peril::WindstormAtlantic],
    }
}

fn att_only_risk() -> Risk {
    Risk {
        sum_insured: ASSET_VALUE,
        territory: "US-SE".to_string(),
        perils_covered: vec![Peril::Attritional],
    }
}

/// The actuarial price of the standard test insurer (attritional ELF 0.239, target LR 0.70).
fn test_atp(sum_insured: u64) -> u64 {
    (0.239 * sum_insured as f64 / 0.70).round() as u64
}

/// The line limit `nlc × capital`, as the pricing layer computes it.
fn line_limit(nlc: f64, capital: i64) -> u64 {
    (nlc * capital.max(0) as f64) as u64
}

/// The windstorm limit `scf × capital / pml_200`, as the pricing layer computes it.
fn cat_limit(scf: f64, capital: i64, pml: f64) -> u64 {
    (scf * capital.max(0) as f64 / pml) as u64
}

fn quote(
    insurer: &Insurer,
    sid: u64,
    iid: u64,
    risk: &Risk,
    line: Option<u64>,
    cat: Option<u64>,
) -> Event {
    let atp = test_atp(risk.sum_insured);
    let mut events =
        insurer.on_lead_quote_requested(Day(0), SubmissionId(sid), InsuredId(iid), risk, line, cat, atp, atp);
    assert_eq!(events.len(), 1);
    events.remove(0).1
}

#[test]
fn on_year_start_preserves_capital() {
    let mut ins = Insurer::new(InsurerId(1), 1_000_000);
    let _ = ins.on_claim_settled(Day(0), 500_000, Peril::Attritional); // depleted by claims
    ins.on_year_start();
    assert_eq!(ins.capital(), 500_000, "on_year_start must not reset capital — it must persist from prior year");
}

#[test]
fn on_claim_settled_reduces_capital() {
    let mut ins = Insurer::new(InsurerId(1), 1_000_000);
    ins.on_claim_settled(Day(0), 300_000, Peril::Attritional);
    assert_eq!(ins.capital(), 700_000);
}

#[test]
fn on_claim_settled_floors_at_zero_and_emits_insolvent() {
    let mut ins = Insurer::new(InsurerId(1), 100);
    let events = ins.on_claim_settled(Day(5), 1_000_000, Peril::Attritional);
    assert_eq!(ins.capital(), 0, "capital must floor at zero");
    assert!(ins.is_insolvent(), "insurer must be marked insolvent");
    assert_eq!(events.len(), 1, "must emit exactly one InsurerInsolvent event");
    assert!(
        matches!(events[0].1, Event::InsurerInsolvent { insurer_id } if insurer_id == InsurerId(1)),
        "event must be InsurerInsolvent with correct id"
    );
    assert_eq!(events[0].0, Day(5));
}

#[test]
fn multiple_claims_exhaust_capital_and_insurer_becomes_insolvent() {
    let initial_capital = 1_000_000i64;
    let gross_premium = 200_000u64;
    // expense_ratio=0.0 → net premium = gross premium
    let mut ins = Insurer::new(InsurerId(1), initial_capital);
    ins.on_policy_bound(PolicyId(1), gross_premium, gross_premium as i64, ASSET_VALUE, &vec![Peril::Attritional]);
    ins.on_policy_bound(PolicyId(2), gross_premium, gross_premium as i64, ASSET_VALUE, &vec![Peril::Attritional]);
    let total_net_premiums = (gross_premium * 2) as i64;
    let total_available = initial_capital + total_net_premiums;
    let claim = (total_available as u64 / 2) + 1;
    let first = ins.on_claim_settled(Day(0), claim, Peril::Attritional);
    assert!(first.is_empty());
    let second = ins.on_claim_settled(Day(0), claim, Peril::Attritional);
    assert_eq!(second.len(), 1);
    assert_eq!(ins.capital(), 0, "capital must floor at zero after cumulative claims exceed available funds");
    assert!(ins.is_insolvent(), "insurer must be marked insolvent after capital is exhausted");
    // Only what was available was paid.
    assert_eq!(ins.year_to_date().total_claims, total_available as u64);
}

#[test]
fn later_claims_on_insolvent_insurer_emit_nothing() {
    let mut ins = Insurer::new(InsurerId(3), 100);
    assert_eq!(ins.on_claim_settled(Day(1), 100, Peril::WindstormAtlantic).len(), 1);
    assert!(ins.on_claim_settled(Day(2), 50, Peril::WindstormAtlantic).is_empty());
    assert_eq!(ins.capital(), 0);
    // A windstorm claim does not count as attritional experience.
    assert_eq!(ins.year_to_date().attritional_claims, 0);
    assert_eq!(ins.year_to_date().total_claims, 100);
}

#[test]
fn on_lead_quote_requested_always_quotes() {
    let ins = Insurer::new(InsurerId(1), 1_000_000_000);
    let event = quote(&ins, 1, 1, &small_risk(), None, None);
    assert!(matches!(event, Event::LeadQuoteIssued { .. }), "insurer must always issue a lead quote, got {event:?}");
}

#[test]
fn lead_quote_issued_carries_insured_id() {
    let ins = Insurer::new(InsurerId(1), 1_000_000_000);
    let event = quote(&ins, 5, 42, &small_risk(), None, None);
    if let Event::LeadQuoteIssued { insured_id, submission_id, insurer_id, atp, premium, .. } = event {
        assert_eq!(insured_id, InsuredId(42));
        assert_eq!(submission_id, SubmissionId(5));
        assert_eq!(insurer_id, InsurerId(1));
        assert_eq!(atp, test_atp(ASSET_VALUE));
        assert_eq!(premium, atp);
    } else {
        panic!("expected LeadQuoteIssued");
    }
}

#[test]
fn insolvent_insurer_declines() {
    let mut ins = Insurer::new(InsurerId(7), 10);
    let _ = ins.on_claim_settled(Day(0), 10, Peril::Attritional);
    let event = quote(&ins, 1, 1, &small_risk(), None, None);
    assert!(matches!(
        event,
        Event::LeadQuoteDeclined { reason: DeclineReason::Insolvent, insurer_id, .. } if insurer_id == InsurerId(7)
    ));
}

#[test]
fn on_policy_bound_increments_cat_aggregate() {
    let mut ins = Insurer::new(InsurerId(1), 0);
    ins.on_policy_bound(PolicyId(1), 0, 0, ASSET_VALUE, &vec![Peril::WindstormAtlantic]);
    assert_eq!(ins.cat_aggregate(), ASSET_VALUE, "cat_aggregate must equal sum_insured after binding one cat policy");
}

#[test]
fn on_policy_expired_releases_cat_aggregate() {
    let mut ins = Insurer::new(InsurerId(1), 0);
    ins.on_policy_bound(PolicyId(1), 0, 0, ASSET_VALUE, &vec![Peril::WindstormAtlantic]);
    assert_eq!(ins.cat_aggregate(), ASSET_VALUE);
    ins.on_policy_expired(PolicyId(1));
    assert_eq!(ins.cat_aggregate(), 0, "cat_aggregate must return to 0 after policy expiry");
    // A second expiry of the same policy releases nothing more.
    ins.on_policy_bound(PolicyId(2), 0, 0, ASSET_VALUE, &vec![Peril::WindstormAtlantic]);
    ins.on_policy_expired(PolicyId(1));
    assert_eq!(ins.cat_aggregate(), ASSET_VALUE);
}

#[test]
fn non_cat_policy_does_not_affect_cat_aggregate() {
    let mut ins = Insurer::new(InsurerId(1), 0);
    ins.on_policy_bound(PolicyId(1), 0, 0, ASSET_VALUE, &vec![Peril::Attritional]);
    assert_eq!(ins.cat_aggregate(), 0, "attritional-only policy must not affect cat_aggregate");
    ins.on_policy_expired(PolicyId(1));
    assert_eq!(ins.cat_aggregate(), 0);
}

#[test]
fn cat_exposure_at_quote_reflects_aggregate() {
    let mut ins = Insurer::new(InsurerId(1), 0);
    ins.on_policy_bound(PolicyId(1), 0, 0, ASSET_VALUE, &vec![Peril::WindstormAtlantic]);
    let event = quote(&ins, 2, 2, &cat_risk(), None, None);
    if let Event::LeadQuoteIssued { cat_exposure_at_quote, .. } = event {
        assert_eq!(cat_exposure_at_quote, ASSET_VALUE, "cat_exposure_at_quote must equal the already-bound cat aggregate");
    } else {
        panic!("expected LeadQuoteIssued");
    }
}

#[test]
fn cat_exposure_at_quote_is_zero_for_non_cat_risk() {
    let mut ins = Insurer::new(InsurerId(1), 0);
    ins.on_policy_bound(PolicyId(1), 0, 0, ASSET_VALUE, &vec![Peril::WindstormAtlantic]);
    let event = quote(&ins, 2, 2, &att_only_risk(), None, None);
    if let Event::LeadQuoteIssued { cat_exposure_at_quote, .. } = event {
        assert_eq!(cat_exposure_at_quote, 0, "cat_exposure_at_quote must be 0 for a risk that doesn't cover WindstormAtlantic");
    } else {
        panic!("expected LeadQuoteIssued");
    }
}

#[test]
fn max_line_size_exceeded_emits_declined() {
    // capital=0 → effective_line = 0.30 × 0 = 0 < ASSET_VALUE → declines MaxLineSizeExceeded.
    let ins = Insurer::new(InsurerId(1), 0);
    let line = Some(line_limit(0.30, ins.capital()));
    let cat = Some(cat_limit(0.30, ins.capital(), 0.252));
    let event = quote(&ins, 1, 1, &cat_risk(), line, cat);
    assert!(
        matches!(event, Event::LeadQuoteDeclined { reason: DeclineReason::MaxLineSizeExceeded, .. }),
        "expected LeadQuoteDeclined(MaxLineSizeExceeded), got {event:?}"
    );
}

#[test]
fn max_cat_aggregate_breached_emits_declined() {
    // No line limit; capital=0 → effective_cat = 0 → declines MaxCatAggregateBreached.
    let ins = Insurer::new(InsurerId(1), 0);
    let cat = Some(cat_limit(0.30, ins.capital(), 0.252));
    let event = quote(&ins, 1, 1, &cat_risk(), None, cat);
    assert!(
        matches!(event, Event::LeadQuoteDeclined { reason: DeclineReason::MaxCatAggregateBreached, .. }),
        "expected LeadQuoteDeclined(MaxCatAggregateBreached), got {event:?}"
    );
}

#[test]
fn cat_limit_does_not_apply_to_non_cat_risk() {
    let ins = Insurer::new(InsurerId(1), 0);
    let event = quote(&ins, 1, 1, &att_only_risk(), None, Some(0));
    assert!(matches!(event, Event::LeadQuoteIssued { .. }));
}

#[test]
fn within_limits_after_partial_fill_emits_quote_issued() {
    // effective_cat = 0.30 × 20B / 0.252 ≈ 23.8B > 2×ASSET_VALUE → room for a second policy.
    let mut ins = Insurer::new(InsurerId(1), 20_000_000_000);
    ins.on_policy_bound(PolicyId(1), 0, 0, ASSET_VALUE, &vec![Peril::WindstormAtlantic]);
    let cat = Some(cat_limit(0.30, ins.capital(), 0.252));
    let event = quote(&ins, 2, 2, &cat_risk(), None, cat);
    assert!(matches!(event, Event::LeadQuoteIssued { .. }), "still within limit — must emit LeadQuoteIssued, got {event:?}");
}

#[test]
fn on_policy_bound_credits_net_premium_to_capital() {
    // expense_ratio=0.25 → net = 75% of gross premium.
    let mut ins = Insurer::new(InsurerId(1), 1_000_000);
    let gross_premium = 400_000u64;
    let expected_net = (gross_premium as f64 * 0.75).round() as i64;
    ins.on_policy_bound(PolicyId(1), gross_premium, expected_net, ASSET_VALUE, &vec![Peril::Attritional]);
    assert_eq!(ins.capital(), 1_000_000 + expected_net, "capital must increase by net premium (gross × (1 − expense_ratio))");
    assert_eq!(ins.year_to_date().premium, gross_premium);
    assert_eq!(ins.year_to_date().exposure, ASSET_VALUE);
}

#[test]
fn close_year_reports_and_resets_accumulators() {
    let mut ins = Insurer::new(InsurerId(1), 1_000_000);
    ins.on_policy_bound(PolicyId(1), 100, 100, 1_000, &vec![Peril::Attritional]);
    let _ = ins.on_claim_settled(Day(3), 40, Peril::Attritional);
    assert_eq!(ins.year_to_date().exposure, 1_000);
    assert_eq!(ins.year_to_date().attritional_claims, 40);
    let report = ins.close_year(Day(359));
    assert_eq!(report.len(), 1);
    assert_eq!(report[0].0, Day(359));
    assert!(matches!(
        report[0].1,
        Event::YearEndCapital {
            insurer_id: InsurerId(1),
            capital: 1_000_060,
            initial_capital: 1_000_000,
            ytd_premium: 100,
            ytd_claims: 40
        }
    ));
    let ytd = ins.year_to_date();
    assert_eq!(ytd.premium + ytd.exposure + ytd.total_claims + ytd.attritional_claims, 0);
    assert!(matches!(ins.close_year(Day(719))[0].1, Event::YearEndCapital { ytd_premium: 0, ytd_claims: 0, .. }));
    assert_eq!(ins.capital(), 1_000_060);
}

/// The year-end distribution as the pricing layer drives it: profit from the net premium
/// written, the payout ratio applied, and the floor from the initial capital.
fn year_end_distribution(ins: &mut Insurer, expense_ratio: f64, payout_ratio: f64, floor_multiple: f64) -> Option<(u64, u64)> {
    if payout_ratio <= 0.0 {
        return None;
    }
    let net_written = (ins.year_to_date().premium as f64 * (1.0 - expense_ratio)).round() as u64;
    let profit = ins.year_profit(net_written);
    if profit == 0 {
        return None;
    }
    let distributable = (profit as f64 * payout_ratio).round() as u64;
    let floor = (ins.initial_capital() as f64 * floor_multiple).round() as i64;
    let events = ins.distribute_profit(Day(359), distributable, floor);
    match events.first() {
        Some((Day(359), Event::CapitalDistributed { insurer_id, amount, remaining_capital })) => {
            assert_eq!(*insurer_id, ins.id());
            assert_eq!(events.len(), 1);
            Some((*amount, *remaining_capital))
        }
        Some(other) => panic!("unexpected {other:?}"),
        None => None,
    }
}

#[test]
fn on_year_end_distributes_profit_in_profitable_year() {
    let initial_capital = 1_000_000i64;
    let premium = 100_000u64;
    let mut ins = Insurer::new(InsurerId(1), initial_capital);
    ins.on_policy_bound(PolicyId(1), premium, premium as i64, ASSET_VALUE, &vec![Peril::Attritional]);
    let (amount, remaining) =
        year_end_distribution(&mut ins, 0.0, 0.70, 1.0).expect("CapitalDistributed must be emitted in a profitable year");
    let expected_amount = (premium as f64 * 0.70).round() as u64;
    assert_eq!(amount, expected_amount, "distribution must be 70% of net profit");
    let expected_remaining = (initial_capital + premium as i64 - amount as i64) as u64;
    assert_eq!(remaining, expected_remaining, "remaining_capital must equal capital after distribution");
    assert_eq!(amount, 70_000);
    assert_eq!(remaining, 1_030_000);
    assert_eq!(ins.capital(), expected_remaining as i64, "insurer capital reduced by distributable");
}

#[test]
fn on_year_end_no_distribution_in_loss_year() {
    let initial_capital = 1_000_000_000i64;
    let premium = 100_000u64;
    let mut ins = Insurer::new(InsurerId(1), initial_capital);
    ins.on_policy_bound(PolicyId(1), premium, premium as i64, ASSET_VALUE, &vec![Peril::Attritional]);
    let _ = ins.on_claim_settled(Day(10), premium * 2, Peril::Attritional);
    assert_eq!(ins.year_profit(premium), 0);
    assert!(year_end_distribution(&mut ins, 0.0, 0.70, 1.0).is_none(), "no distribution must be made in a loss year");
}

#[test]
fn on_year_end_no_distribution_when_payout_zero() {
    let mut ins = Insurer::new(InsurerId(1), 1_000_000);
    ins.on_policy_bound(PolicyId(1), 100_000, 100_000, ASSET_VALUE, &vec![Peril::Attritional]);
    assert!(year_end_distribution(&mut ins, 0.0, 0.0, 1.0).is_none(), "no distribution must be made when payout_ratio=0.0");
    assert_eq!(ins.capital(), 1_100_000);
}

#[test]
fn on_year_end_no_distribution_when_capital_below_floor() {
    let initial_capital = 1_000_000i64;
    let premium = 100_000u64;
    let mut ins = Insurer::new(InsurerId(1), initial_capital);
    let _ = ins.on_claim_settled(Day(0), 50_000, Peril::WindstormAtlantic); // 950_000 < 1_000_000
    let _ = ins.close_year(Day(359)); // the loss belongs to a prior year
    ins.on_policy_bound(PolicyId(1), premium, premium as i64, ASSET_VALUE, &vec![Peril::Attritional]);
    // capital after distribution would be 950_000 + 100_000 - 70_000 = 980_000 < 1_000_000
    assert!(year_end_distribution(&mut ins, 0.0, 0.70, 1.0).is_none());
    assert_eq!(ins.capital(), 1_050_000);
}

#[test]
fn on_year_end_distributes_only_when_capital_restored_above_floor() {
    let initial_capital = 1_000_000i64;
    let premium = 200_000u64;
    let mut ins = Insurer::new(InsurerId(1), initial_capital);
    let _ = ins.on_claim_settled(Day(0), 50_000, Peril::WindstormAtlantic); // 950_000
    let _ = ins.close_year(Day(359));
    ins.on_policy_bound(PolicyId(1), premium, premium as i64, ASSET_VALUE, &vec![Peril::Attritional]);
    // 1_150_000 - 140_000 = 1_010_000 >= 1_000_000 → distributes
    assert_eq!(year_end_distribution(&mut ins, 0.0, 0.70, 1.0), Some((140_000, 1_010_000)));
    assert_eq!(ins.capital(), 1_010_000);
}

#[test]
fn insolvent_insurer_distributes_nothing() {
    let mut ins = Insurer::new(InsurerId(1), 10);
    let _ = ins.on_claim_settled(Day(0), 10, Peril::Attritional);
    assert!(ins.distribute_profit(Day(0), 1, i64::MIN).is_empty());
    assert!(Insurer::new(InsurerId(2), 10).distribute_profit(Day(0), 0, 0).is_empty());
}

#[test]
fn zombie_insurer_marked_insolvent_at_year_end() {
    // capital = 80M USD → max_line = 0.30 × 80M = 24M < ASSET_VALUE (25M) → zombie
    let mut ins = Insurer::new(InsurerId(1), 8_000_000_000);
    let _ = ins.close_year(Day(359));
    let max_line = Some(line_limit(0.30, ins.capital()));
    let events = ins.check_writable(Day(360), max_line, ASSET_VALUE);
    assert!(ins.is_insolvent(), "zombie insurer must be marked insolvent");
    assert_eq!(events.len(), 1);
    assert!(matches!(events[0].1, Event::InsurerInsolvent { insurer_id } if insurer_id == InsurerId(1)));
    // Already insolvent: a second check issues no second notice.
    assert!(ins.check_writable(Day(720), max_line, ASSET_VALUE).is_empty());
}

#[test]
fn insurer_at_max_line_threshold_not_marked_insolvent() {
    let capital_cents = (ASSET_VALUE as f64 / 0.30).ceil() as i64;
    let mut ins = Insurer::new(InsurerId(1), capital_cents);
    let max_line = Some(line_limit(0.30, ins.capital()));
    let events = ins.check_writable(Day(360), max_line, ASSET_VALUE);
    assert!(!ins.is_insolvent(), "insurer at threshold must not be marked insolvent");
    assert!(events.is_empty());
    // Without a line limit the insurer is never a zombie.
    assert!(ins.check_writable(Day(360), None, u64::MAX).is_empty());
}

#[test]
fn two_insurers_diverge_in_capacity_after_asymmetric_cat_loss() {
    let capital_b = 10_000_000_000i64;
    let capital_a = 10_000_000_000i64;
    let mut ins_a = Insurer::new(InsurerId(1), capital_a);
    let ins_b = Insurer::new(InsurerId(2), capital_b);
    ins_a.on_policy_bound(PolicyId(1), 0, 0, ASSET_VALUE, &vec![Peril::WindstormAtlantic]);
    let drain = capital_a - 500_000_000;
    let _ = ins_a.on_claim_settled(Day(10), drain as u64, Peril::WindstormAtlantic);
    assert!(ins_a.capital() < 600_000_000, "ins_a must be nearly depleted: {}", ins_a.capital());

    let risk = cat_risk();
    let limits = |l: &Insurer| (Some(line_limit(0.30, l.capital())), Some(cat_limit(0.30, l.capital(), 0.252)));
    let (la, ca) = limits(&ins_a);
    let (lb, cb) = limits(&ins_b);
    let event_a = quote(&ins_a, 1, 1, &risk, la, ca);
    let event_b = quote(&ins_b, 2, 2, &risk, lb, cb);
    assert!(
        matches!(event_a, Event::LeadQuoteDeclined { reason: DeclineReason::MaxLineSizeExceeded, .. }),
        "depleted ins_a must decline with MaxLineSizeExceeded, got {event_a:?}"
    );
    assert!(matches!(event_b, Event::LeadQuoteIssued { .. }), "well-capitalised ins_b must issue a quote, got {event_b:?}");
}
