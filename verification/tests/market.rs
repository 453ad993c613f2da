use rins::config::ASSET_VALUE;
use rins::events::{Event, Peril, Risk};
use rins::market::{asset_damage_events, Market};
use rins::types::{Day, InsuredId, InsurerId, PolicyId, SubmissionId, Year};

fn small_risk() -> Risk {
    Risk {
        sum_insured: ASSET_VALUE,
        territory: "US-SE".to_string(),
        perils_covered: vec![Peril::WindstormAtlantic, Peril::Attritional],
    }
}

/// Register an insured, create an accepted + activated policy. Returns the PolicyId.
fn bind_policy(market: &mut Market, submission_id: u64, insured_id: u64) -> PolicyId {
    let sid = SubmissionId(submission_id);
    let iid = InsuredId(insured_id);
    let insurer_id = InsurerId(1);
    market.register_insured(iid, "US-SE", ASSET_VALUE);
    let events = market.on_quote_accepted(Day(0), sid, iid, insurer_id, 100_000, small_risk(), Year(1));
    let policy_id = events
        .iter()
        .find_map(|(_, e)| match e {
            Event::PolicyBound { policy_id, .. } => Some(*policy_id),
            _ => None,
        })
        .expect("expected PolicyBound");
    market.on_policy_bound(policy_id);
    policy_id
}

/// A catastrophe with shared damage fraction `df`: each struck insured loses `df × sum_insured`.
fn cat_losses(market: &Market, territory: &str, df: f64) -> Vec<(Day, Event)> {
    let hits = market.insureds_in_territory(territory);
    let losses = hits.into_iter().map(|(id, si)| (id, (df * si as f64) as u64)).collect();
    asset_damage_events(Day(100), Peril::WindstormAtlantic, losses)
}

#[test]
fn on_quote_accepted_creates_policy_record() {
    let mut market = Market::new();
    let events = market.on_quote_accepted(Day(0), SubmissionId(1), InsuredId(1), InsurerId(1), 50_000, small_risk(), Year(1));
    let policy_id = events.iter().find_map(|(_, e)| match e {
        Event::PolicyBound { policy_id, .. } => Some(*policy_id),
        _ => None,
    });
    assert!(policy_id.is_some(), "PolicyBound must be scheduled");
    let pid = policy_id.unwrap();
    assert!(market.is_pending(pid));
    assert!(!market.is_in_force(pid));
}

#[test]
fn on_quote_accepted_schedules_policy_bound_plus_one() {
    let mut market = Market::new();
    let events = market.on_quote_accepted(Day(10), SubmissionId(1), InsuredId(1), InsurerId(1), 50_000, small_risk(), Year(1));
    let bind_day = events
        .iter()
        .find_map(|(d, e)| if matches!(e, Event::PolicyBound { .. }) { Some(*d) } else { None })
        .unwrap();
    assert_eq!(bind_day, Day(11), "PolicyBound must fire at QuoteAccepted.day + 1");
}

#[test]
fn policy_expires_360_days_after_policy_bound() {
    let mut market = Market::new();
    let events = market.on_quote_accepted(Day(10), SubmissionId(1), InsuredId(1), InsurerId(1), 50_000, small_risk(), Year(1));
    let bind_day = events
        .iter()
        .find_map(|(d, e)| if matches!(e, Event::PolicyBound { .. }) { Some(*d) } else { None })
        .unwrap();
    let expire_day = events
        .iter()
        .find_map(|(d, e)| if matches!(e, Event::PolicyExpired { .. }) { Some(*d) } else { None })
        .unwrap();
    assert_eq!(expire_day.0, bind_day.0 + 360, "expiry must be 360 days after PolicyBound");
}

#[test]
fn on_policy_bound_registers_active_policy() {
    let mut market = Market::new();
    let events = market.on_quote_accepted(Day(0), SubmissionId(1), InsuredId(1), InsurerId(1), 50_000, small_risk(), Year(1));
    let policy_id = events
        .iter()
        .find_map(|(_, e)| match e {
            Event::PolicyBound { policy_id, .. } => Some(*policy_id),
            _ => None,
        })
        .unwrap();

    assert!(!market.is_in_force(policy_id));
    assert!(market.active_policy_of(InsuredId(1)).is_none());

    market.on_policy_bound(policy_id);

    assert!(market.is_in_force(policy_id));
    assert_eq!(market.active_policy_of(InsuredId(1)), Some(policy_id));
    assert!(!market.is_pending(policy_id));
}

#[test]
fn on_policy_expired_removes_policy() {
    let mut market = Market::new();
    let pid = bind_policy(&mut market, 1, 1);
    assert!(market.is_in_force(pid));
    market.on_policy_expired(pid);
    assert!(!market.is_in_force(pid), "policy must be removed on expiry");
}

#[test]
fn on_policy_expired_clears_active_policy_map() {
    let mut market = Market::new();
    let pid = bind_policy(&mut market, 1, 1);
    assert!(market.active_policy_of(InsuredId(1)).is_some());
    market.on_policy_expired(pid);
    assert!(market.active_policy_of(InsuredId(1)).is_none(), "active policy map must be cleared on expiry");
}

#[test]
fn on_asset_damage_skips_claim_on_expiry_day() {
    let mut market = Market::new();
    bind_policy(&mut market, 1, 1);
    let events = market.on_asset_damage(Day(361), InsuredId(1), ASSET_VALUE, Peril::WindstormAtlantic);
    assert!(events.is_empty(), "claim on expiry day must be skipped");
    let events = market.on_asset_damage(Day(360), InsuredId(1), ASSET_VALUE, Peril::WindstormAtlantic);
    assert_eq!(events.len(), 1, "claim one day before expiry must be emitted");
}

#[test]
fn on_asset_damage_returns_claim_settled() {
    let mut market = Market::new();
    bind_policy(&mut market, 1, 1);
    let events = market.on_asset_damage(Day(10), InsuredId(1), 100_000, Peril::WindstormAtlantic);
    assert_eq!(events.len(), 1);
    assert!(matches!(events[0].1, Event::ClaimSettled { amount: 100_000, .. }));
}

#[test]
fn aggregate_annual_gul_capped_at_sum_insured() {
    let mut market = Market::new();
    bind_policy(&mut market, 1, 1);
    let half = ASSET_VALUE / 2 + 1;
    let e1 = market.on_asset_damage(Day(10), InsuredId(1), half, Peril::WindstormAtlantic);
    let e2 = market.on_asset_damage(Day(20), InsuredId(1), half, Peril::WindstormAtlantic);
    let total: u64 = e1
        .iter()
        .chain(e2.iter())
        .filter_map(|(_, e)| if let Event::ClaimSettled { amount, .. } = e { Some(*amount) } else { None })
        .sum();
    assert_eq!(total, ASSET_VALUE, "aggregate annual GUL must not exceed sum_insured");
}

#[test]
fn on_asset_damage_unknown_insured_produces_no_event() {
    let mut market = Market::new();
    let events = market.on_asset_damage(Day(0), InsuredId(999), 100_000, Peril::Attritional);
    assert!(events.is_empty(), "unknown insured_id must produce no events");
}

#[test]
fn on_asset_damage_uninsured_returns_empty() {
    let mut market = Market::new();
    market.register_insured(InsuredId(1), "US-SE", ASSET_VALUE);
    let events = market.on_asset_damage(Day(10), InsuredId(1), 100_000, Peril::WindstormAtlantic);
    assert!(events.is_empty(), "uninsured insured must not generate a ClaimSettled");
}

#[test]
fn on_asset_damage_peril_not_covered_returns_empty() {
    let mut market = Market::new();
    let iid = InsuredId(1);
    market.register_insured(iid, "US-SE", ASSET_VALUE);
    let cat_only_risk = Risk {
        sum_insured: ASSET_VALUE,
        territory: "US-SE".to_string(),
        perils_covered: vec![Peril::WindstormAtlantic],
    };
    let events = market.on_quote_accepted(Day(0), SubmissionId(1), iid, InsurerId(1), 100_000, cat_only_risk, Year(1));
    let pid = events
        .iter()
        .find_map(|(_, e)| if let Event::PolicyBound { policy_id, .. } = e { Some(*policy_id) } else { None })
        .unwrap();
    market.on_policy_bound(pid);
    let events = market.on_asset_damage(Day(10), iid, 100_000, Peril::Attritional);
    assert!(events.is_empty(), "peril not covered by policy must not generate a claim");
}

#[test]
fn on_quote_rejected_is_noop() {
    let mut market = Market::new();
    market.on_quote_rejected(SubmissionId(99));
    assert_eq!(market.policy_count(), 0);
}

// ── Catastrophe routing (the damage fraction is drawn by the caller) ─────────

#[test]
fn cat_loss_uses_shared_damage_fraction() {
    let mut market = Market::new();
    bind_policy(&mut market, 1, 1);
    bind_policy(&mut market, 2, 2);
    let events = cat_losses(&market, "US-SE", 0.0371);
    assert_eq!(events.len(), 2);
    let guls: Vec<u64> = events
        .iter()
        .filter_map(|(_, e)| if let Event::AssetDamage { ground_up_loss, .. } = e { Some(*ground_up_loss) } else { None })
        .collect();
    assert_eq!(guls[0], guls[1], "all insureds in the same cat event must share the damage fraction");
}

#[test]
fn on_loss_event_emits_asset_damage_per_registered_insured() {
    let mut market = Market::new();
    bind_policy(&mut market, 1, 1);
    bind_policy(&mut market, 2, 2);
    let events = cat_losses(&market, "US-SE", 1.0);
    assert_eq!(events.len(), 2, "one AssetDamage per registered insured");
    for (_, e) in &events {
        assert!(matches!(e, Event::AssetDamage { peril: Peril::WindstormAtlantic, .. }));
    }
}

#[test]
fn on_loss_event_no_events_for_unregistered_insured() {
    let mut market = Market::new();
    market.on_quote_accepted(Day(0), SubmissionId(1), InsuredId(1), InsurerId(1), 50_000, small_risk(), Year(1));
    let events = cat_losses(&market, "US-SE", 1.0);
    assert!(events.is_empty(), "unregistered insured must not receive AssetDamage");
}

#[test]
fn cat_gul_proportional_to_sum_insured_same_territory() {
    let mut market = Market::new();
    let si_small = ASSET_VALUE;
    let si_large = ASSET_VALUE * 2;
    market.register_insured(InsuredId(1), "US-SE", si_small);
    market.register_insured(InsuredId(2), "US-SE", si_large);
    let events = cat_losses(&market, "US-SE", 1.0);
    assert_eq!(events.len(), 2);
    assert!(matches!(events[0].1, Event::AssetDamage { insured_id: InsuredId(1), ground_up_loss, .. } if ground_up_loss == si_small));
    assert!(matches!(events[1].1, Event::AssetDamage { insured_id: InsuredId(2), ground_up_loss, .. } if ground_up_loss == si_large));
}

#[test]
fn loss_event_to_empty_territory_emits_nothing() {
    let mut market = Market::new();
    market.register_insured(InsuredId(1), "US-SE", ASSET_VALUE);
    let events = cat_losses(&market, "US-Gulf", 1.0);
    assert!(events.is_empty(), "no AssetDamage when struck territory has no registered insureds");
}

#[test]
fn loss_event_strikes_correct_subset_across_three_territories() {
    let mut market = Market::new();
    let iid_ne = InsuredId(10);
    let iid_se = InsuredId(11);
    let iid_gulf = InsuredId(12);
    market.register_insured(iid_ne, "US-NE", ASSET_VALUE);
    market.register_insured(iid_se, "US-SE", ASSET_VALUE);
    market.register_insured(iid_gulf, "US-Gulf", ASSET_VALUE);
    for (territory, expected_iid) in [("US-SE", iid_se), ("US-Gulf", iid_gulf), ("US-NE", iid_ne)] {
        let events = cat_losses(&market, territory, 1.0);
        assert_eq!(events.len(), 1, "territory {territory}: expected exactly 1 AssetDamage");
        match &events[0].1 {
            Event::AssetDamage { insured_id, .. } => assert_eq!(*insured_id, expected_iid),
            e => panic!("expected AssetDamage, got {e:?}"),
        }
    }
}

#[test]
fn on_loss_event_only_hits_insureds_in_matching_territory() {
    let mut market = Market::new();
    market.register_insured(InsuredId(10), "US-SE", ASSET_VALUE);
    market.register_insured(InsuredId(11), "US-NE", ASSET_VALUE);
    let events = cat_losses(&market, "US-SE", 1.0);
    assert_eq!(events.len(), 1, "only insured A (US-SE) should be hit");
    assert!(matches!(events[0].1, Event::AssetDamage { insured_id: InsuredId(10), .. }));
}

// ── Further cases ────────────────────────────────────────────────────────────

#[test]
fn register_insured_is_idempotent() {
    let mut market = Market::new();
    market.register_insured(InsuredId(1), "US-SE", 100);
    market.register_insured(InsuredId(1), "US-NE", 200);
    assert_eq!(market.insureds_in_territory("US-SE"), vec![(InsuredId(1), 100)]);
    assert!(market.insureds_in_territory("US-NE").is_empty());
}

#[test]
fn every_struck_insured_is_damaged_even_at_zero_loss() {
    let events = asset_damage_events(Day(5), Peril::WindstormAtlantic, vec![(InsuredId(1), 0), (InsuredId(2), 7)]);
    assert_eq!(events.len(), 2);
    assert!(matches!(events[0], (Day(5), Event::AssetDamage { insured_id: InsuredId(1), ground_up_loss: 0, .. })));
    assert!(matches!(events[1], (Day(5), Event::AssetDamage { insured_id: InsuredId(2), ground_up_loss: 7, .. })));
}

#[test]
fn cap_is_per_calendar_year() {
    // Accepted day 0, covered until day 361: days 300 and 360 fall in years 1 and 2.
    let mut market = Market::new();
    bind_policy(&mut market, 1, 1);
    let e1 = market.on_asset_damage(Day(300), InsuredId(1), ASSET_VALUE, Peril::Attritional);
    let e2 = market.on_asset_damage(Day(310), InsuredId(1), 5, Peril::Attritional);
    let e3 = market.on_asset_damage(Day(360), InsuredId(1), 5, Peril::Attritional);
    assert_eq!(e1.len(), 1);
    assert!(e2.is_empty(), "year 1 cap exhausted");
    assert!(matches!(e3[0].1, Event::ClaimSettled { amount: 5, .. }), "year 2 starts a fresh cap");
}

#[test]
fn rebinding_keeps_newest_policy_active() {
    let mut market = Market::new();
    let old = bind_policy(&mut market, 1, 1);
    let new = bind_policy(&mut market, 2, 1);
    assert_eq!(market.active_policy_of(InsuredId(1)), Some(new));
    market.on_policy_expired(old);
    assert_eq!(market.active_policy_of(InsuredId(1)), Some(new), "expiring the old policy keeps the new one");
    assert!(market.is_in_force(new));
}

#[test]
fn policy_record_keeps_terms() {
    let mut market = Market::new();
    let pid = bind_policy(&mut market, 7, 3);
    let p = market.policy(pid).expect("in force");
    assert_eq!(p.insured_id, InsuredId(3));
    assert_eq!(p.submission_id, SubmissionId(7));
    assert_eq!(p.premium, 100_000);
    assert_eq!(p.expire_day, Day(361));
    assert_eq!(p.bound_year, Year(1));
}

#[test]
fn on_loss_event_emits_asset_damage_regardless_of_expiry() {
    // The catastrophe damages every registered insured; expiry is checked when the
    // damage is routed to a claim.
    let mut market = Market::new();
    bind_policy(&mut market, 1, 1);
    let hits = market.insureds_in_territory("US-SE");
    let losses = hits.into_iter().map(|(id, si)| (id, (1.0 * si as f64) as u64)).collect();
    let events = asset_damage_events(Day(361), Peril::WindstormAtlantic, losses);
    assert_eq!(events.len(), 1, "on_loss_event emits AssetDamage even on expiry day");
    assert!(market.on_asset_damage(Day(361), InsuredId(1), ASSET_VALUE, Peril::WindstormAtlantic).is_empty());
}

#[test]
fn on_loss_event_ground_up_loss_le_sum_insured() {
    let mut market = Market::new();
    bind_policy(&mut market, 1, 1);
    for df in [0.0, 0.25, 0.5, 1.0] {
        for (_, e) in &cat_losses(&market, "US-SE", df) {
            if let Event::AssetDamage { ground_up_loss, .. } = e {
                assert!(*ground_up_loss <= ASSET_VALUE, "gul {ground_up_loss} > sum_insured {ASSET_VALUE}");
            }
        }
    }
}

#[test]
fn accepted_quotes_take_fresh_policy_ids() {
    let mut market = Market::new();
    let first = bind_policy(&mut market, 1, 1);
    let second = bind_policy(&mut market, 2, 2);
    assert_eq!(first, PolicyId(0));
    assert_eq!(second, PolicyId(1));
    assert_eq!(market.next_policy_id(), PolicyId(2));
    market.on_policy_expired(first);
    let third = bind_policy(&mut market, 3, 3);
    assert_eq!(third, PolicyId(2));
    assert!(market.is_in_force(second) && market.is_in_force(third) && !market.is_in_force(first));
}

#[test]
fn pending_policy_pays_no_claim_until_bound() {
    let mut market = Market::new();
    market.register_insured(InsuredId(1), "US-SE", ASSET_VALUE);
    market.on_quote_accepted(Day(0), SubmissionId(1), InsuredId(1), InsurerId(1), 100_000, small_risk(), Year(1));
    assert!(market.is_pending(PolicyId(0)));
    assert!(market.on_asset_damage(Day(0), InsuredId(1), 1_000, Peril::WindstormAtlantic).is_empty());
    market.on_policy_bound(PolicyId(0));
    assert_eq!(market.on_asset_damage(Day(1), InsuredId(1), 1_000, Peril::WindstormAtlantic).len(), 1);
}

#[test]
fn expired_policy_pays_no_further_claim() {
    let mut market = Market::new();
    let policy = bind_policy(&mut market, 1, 1);
    assert_eq!(market.on_asset_damage(Day(10), InsuredId(1), 1_000, Peril::Attritional).len(), 1);
    market.on_policy_expired(policy);
    assert!(market.on_asset_damage(Day(20), InsuredId(1), 1_000, Peril::Attritional).is_empty());
}

#[test]
fn expiring_a_pending_policy_changes_nothing() {
    let mut market = Market::new();
    market.register_insured(InsuredId(1), "US-SE", ASSET_VALUE);
    market.on_quote_accepted(Day(0), SubmissionId(1), InsuredId(1), InsurerId(1), 100_000, small_risk(), Year(1));
    market.on_policy_expired(PolicyId(0));
    assert!(market.is_pending(PolicyId(0)));
    assert!(!market.is_in_force(PolicyId(0)));
    market.on_policy_bound(PolicyId(0));
    assert!(market.is_in_force(PolicyId(0)));
    market.on_policy_expired(PolicyId(7));
    assert!(market.is_in_force(PolicyId(0)));
}

#[test]
fn binding_an_unknown_or_repeated_id_changes_nothing() {
    let mut market = Market::new();
    market.on_policy_bound(PolicyId(3));
    assert_eq!(market.policy_count(), 0);
    assert_eq!(market.next_policy_id(), PolicyId(0));
    let policy = bind_policy(&mut market, 1, 1);
    market.on_policy_bound(policy);
    assert_eq!(market.policy_count(), 1);
    assert_eq!(market.active_policy_of(InsuredId(1)), Some(policy));
}
